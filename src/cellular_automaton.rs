use vstd::prelude::*;

use crate::states::{
    event_for, lemma_event_accepted, normal_arrives, signal_arrives, special_arrives, Direction,
    Event, State,
};

verus! {

/// The largest distance from the origin that the grid may reach in any
/// direction. A grid that large could not be held in memory, so the bound only
/// keeps coordinate arithmetic inside `i64` and indices inside `usize`.
pub const GRID_LIMIT: i64 = 1_000_000_000;

/// A synchronous cellular automaton on a self-expanding grid.
///
/// `field[i][j]` holds the cell at logical coordinates
/// `(j - center.0, i - center.1)`; cells outside the grid are unexcitable.
pub struct CellularAutomation {
    pub field: Vec<Vec<State>>,
    pub tact: u64,
    pub center: (i64, i64),
}

/// The mathematical content of an automaton: its tact counter, the physical
/// index of the logical origin, and the rows of the grid.
pub struct AutomatonView {
    pub tact: nat,
    pub center: (int, int),
    pub rows: Seq<Seq<State>>,
}

/// The view whose grid spans rows `t..=b` and columns `l..=r` and holds
/// `f(x, y)` at logical coordinates `(x, y)`.
pub open spec fn framed(
    tact: nat,
    t: int,
    l: int,
    b: int,
    r: int,
    f: spec_fn(int, int) -> State,
) -> AutomatonView {
    AutomatonView {
        tact,
        center: (-l, -t),
        rows: Seq::new(
            (b - t + 1) as nat,
            |i: int| Seq::new((r - l + 1) as nat, |j: int| f(j + l, i + t)),
        ),
    }
}

pub open spec fn min(a: int, b: int) -> int {
    if a <= b {
        a
    } else {
        b
    }
}

pub open spec fn max(a: int, b: int) -> int {
    if a >= b {
        a
    } else {
        b
    }
}

impl AutomatonView {
    pub open spec fn height(self) -> int {
        self.rows.len() as int
    }

    pub open spec fn width(self) -> int {
        if self.rows.len() > 0 {
            self.rows[0].len() as int
        } else {
            0
        }
    }

    /// Logical row of the first physical row.
    pub open spec fn top(self) -> int {
        -self.center.1
    }

    /// Logical column of the first physical column.
    pub open spec fn left(self) -> int {
        -self.center.0
    }

    /// Logical row of the last physical row.
    pub open spec fn bottom(self) -> int {
        self.height() - 1 - self.center.1
    }

    /// Logical column of the last physical column.
    pub open spec fn right(self) -> int {
        self.width() - 1 - self.center.0
    }

    /// Every cell that is not unexcitable lies at least two cells inside every
    /// edge of the grid, so that its neighbours and theirs can be looked up.
    pub open spec fn margined(self) -> bool {
        forall|x: int, y: int|
            #[trigger] self.cell(x, y) != State::Unexcitable ==> self.top() + 2 <= y <= self.bottom()
                - 2 && self.left() + 2 <= x <= self.right() - 2
    }

    /// The grid is rectangular, at least 3 by 3, within `GRID_LIMIT` of the
    /// origin, and keeps a margin around every cell that is not unexcitable.
    pub open spec fn wf(self) -> bool {
        &&& self.margined()
        &&& self.height() >= 3
        &&& self.width() >= 3
        &&& forall|i: int| 0 <= i < self.height() ==> #[trigger] self.rows[i].len() == self.width()
        &&& -GRID_LIMIT <= self.top()
        &&& self.bottom() <= GRID_LIMIT
        &&& -GRID_LIMIT <= self.left()
        &&& self.right() <= GRID_LIMIT
    }

    /// The grid has room to grow by one cell on every side.
    pub open spec fn has_room(self) -> bool {
        &&& -GRID_LIMIT < self.top()
        &&& self.bottom() < GRID_LIMIT
        &&& -GRID_LIMIT < self.left()
        &&& self.right() < GRID_LIMIT
    }

    /// Logical coordinates `(x, y)` lie inside the grid.
    pub open spec fn contains(self, x: int, y: int) -> bool {
        self.top() <= y <= self.bottom() && self.left() <= x <= self.right()
    }

    /// The state at logical coordinates `(x, y)`; unexcitable outside the grid.
    pub open spec fn cell(self, x: int, y: int) -> State {
        if self.contains(x, y) {
            self.rows[y + self.center.1][x + self.center.0]
        } else {
            State::Unexcitable
        }
    }

    /// The view after writing `s` at `(x, y)`: the grid grows so that it
    /// reaches at least two cells beyond `(x, y)` on every side.
    pub open spec fn set(self, x: int, y: int, s: State) -> AutomatonView {
        framed(
            self.tact,
            min(self.top(), y - 2),
            min(self.left(), x - 2),
            max(self.bottom(), y + 2),
            max(self.right(), x + 2),
            |a: int, b: int|
                if a == x && b == y {
                    s
                } else {
                    self.cell(a, b)
                },
        )
    }
}

/// The automaton created by `CellularAutomation::new`: tact 0 and a 3 by 3
/// unexcitable grid with the origin in its middle.
pub open spec fn initial_view() -> AutomatonView {
    framed(0, -1, -1, 1, 1, |x: int, y: int| State::Unexcitable)
}

/// What `framed` builds: its window and its cells.
pub proof fn lemma_framed(
    tact: nat,
    t: int,
    l: int,
    b: int,
    r: int,
    f: spec_fn(int, int) -> State,
)
    requires
        t <= b,
        l <= r,
    ensures
        framed(tact, t, l, b, r, f).top() == t,
        framed(tact, t, l, b, r, f).left() == l,
        framed(tact, t, l, b, r, f).bottom() == b,
        framed(tact, t, l, b, r, f).right() == r,
        forall|i: int|
            0 <= i < framed(tact, t, l, b, r, f).height() ==> #[trigger] framed(
                tact,
                t,
                l,
                b,
                r,
                f,
            ).rows[i].len() == r - l + 1,
        forall|x: int, y: int|
            #[trigger] framed(tact, t, l, b, r, f).cell(x, y) == if t <= y <= b && l <= x <= r {
                f(x, y)
            } else {
                State::Unexcitable
            },
{
}

/// Two well-formed views with the same tact, the same window and the same
/// cells are equal.
pub proof fn lemma_view_ext(a: AutomatonView, b: AutomatonView)
    requires
        a.wf(),
        b.wf(),
        a.tact == b.tact,
        a.top() == b.top(),
        a.left() == b.left(),
        a.bottom() == b.bottom(),
        a.right() == b.right(),
        forall|x: int, y: int| #[trigger] a.cell(x, y) == b.cell(x, y),
    ensures
        a == b,
{
    assert forall|i: int| 0 <= i < a.height() implies #[trigger] a.rows[i] =~= b.rows[i] by {
        assert forall|j: int| 0 <= j < a.width() implies a.rows[i][j] == b.rows[i][j] by {
            assert(a.cell(j - a.center.0, i - a.center.1) == b.cell(j - a.center.0, i - a.center.1));
        }
    }
    assert(a.rows =~= b.rows);
}

impl View for CellularAutomation {
    type V = AutomatonView;

    open spec fn view(&self) -> AutomatonView {
        AutomatonView {
            tact: self.tact as nat,
            center: (self.center.0 as int, self.center.1 as int),
            rows: self.field@.map_values(|r: Vec<State>| r@),
        }
    }
}

fn blank_row(width: usize) -> (r: Vec<State>)
    ensures
        r@ == Seq::new(width as nat, |j: int| State::Unexcitable),
{
    let mut row: Vec<State> = Vec::new();
    let mut j: usize = 0;
    while j < width
        invariant
            j <= width,
            row@ == Seq::new(j as nat, |k: int| State::Unexcitable),
        decreases width - j,
    {
        row.push(State::Unexcitable);
        j = j + 1;
        assert(row@ =~= Seq::new(j as nat, |k: int| State::Unexcitable));
    }
    row
}

impl CellularAutomation {
    /// A fresh automaton: tact 0 and a 3 by 3 unexcitable grid with the origin
    /// in its middle.
    pub fn new() -> (r: CellularAutomation)
        ensures
            r@ == initial_view(),
            r@.wf(),
    {
        let mut field: Vec<Vec<State>> = Vec::new();
        let mut i: usize = 0;
        while i < 3
            invariant
                i <= 3,
                field@.len() == i,
                forall|k: int| 0 <= k < i ==> #[trigger] field@[k]@ == Seq::new(3, |j: int| State::Unexcitable),
            decreases 3 - i,
        {
            field.push(blank_row(3));
            i = i + 1;
        }
        let r = CellularAutomation { field, tact: 0, center: (1, 1) };
        proof {
            lemma_framed(0, -1, -1, 1, 1, |x: int, y: int| State::Unexcitable);
            lemma_view_ext(r@, initial_view());
        }
        r
    }

    /// The state at logical coordinates `coords`, which must lie inside the grid.
    pub fn get_cell(&self, coords: (i64, i64)) -> (r: &State)
        requires
            self@.wf(),
            self@.contains(coords.0 as int, coords.1 as int),
        ensures
            *r == self@.cell(coords.0 as int, coords.1 as int),
    {
        let i = (self.center.1 + coords.1) as usize;
        let j = (self.center.0 + coords.0) as usize;
        assert(self@.rows[i as int] == self.field@[i as int]@);
        &self.field[i][j]
    }
}


impl AutomatonView {
    /// `self` and `o` hold the same tact and the same cells at every coordinate.
    pub open spec fn same_cells(self, o: AutomatonView) -> bool {
        &&& self.tact == o.tact
        &&& forall|x: int, y: int| #[trigger] self.cell(x, y) == o.cell(x, y)
    }
}

impl CellularAutomation {
    /// Adds an unexcitable row above the grid.
    fn push_row_front(&mut self)
        requires
            old(self)@.wf(),
            old(self)@.top() > -GRID_LIMIT,
        ensures
            final(self)@.wf(),
            final(self)@.same_cells(old(self)@),
            final(self)@.top() == old(self)@.top() - 1,
            final(self)@.left() == old(self)@.left(),
            final(self)@.bottom() == old(self)@.bottom(),
            final(self)@.right() == old(self)@.right(),
    {
        let ghost v0 = self@;
        let width = self.field[0].len();
        assert(v0.rows[0] == self.field@[0]@);
        let row = blank_row(width);
        self.field.insert(0, row);
        self.center.1 = self.center.1 + 1;
        let ghost v1 = self@;
        assert(v1.rows =~= seq![row@] + v0.rows);
        assert forall|x: int, y: int| #[trigger] v1.cell(x, y) == v0.cell(x, y) by {
            if v1.contains(x, y) && y > v1.top() {
                assert(v1.rows[y + v1.center.1] == v0.rows[y + v0.center.1]);
            }
        }
    }

    /// Adds an unexcitable row below the grid.
    fn push_row_back(&mut self)
        requires
            old(self)@.wf(),
            old(self)@.bottom() < GRID_LIMIT,
        ensures
            final(self)@.wf(),
            final(self)@.same_cells(old(self)@),
            final(self)@.top() == old(self)@.top(),
            final(self)@.left() == old(self)@.left(),
            final(self)@.bottom() == old(self)@.bottom() + 1,
            final(self)@.right() == old(self)@.right(),
    {
        let ghost v0 = self@;
        let width = self.field[0].len();
        assert(v0.rows[0] == self.field@[0]@);
        let row = blank_row(width);
        self.field.push(row);
        let ghost v1 = self@;
        assert(v1.rows =~= v0.rows.push(row@));
        assert forall|x: int, y: int| #[trigger] v1.cell(x, y) == v0.cell(x, y) by {
            if v1.contains(x, y) && y < v1.bottom() {
                assert(v1.rows[y + v1.center.1] == v0.rows[y + v0.center.1]);
            }
        }
    }

    /// Adds an unexcitable column left of the grid.
    fn push_column_front(&mut self)
        requires
            old(self)@.wf(),
            old(self)@.left() > -GRID_LIMIT,
        ensures
            final(self)@.wf(),
            final(self)@.same_cells(old(self)@),
            final(self)@.top() == old(self)@.top(),
            final(self)@.left() == old(self)@.left() - 1,
            final(self)@.bottom() == old(self)@.bottom(),
            final(self)@.right() == old(self)@.right(),
    {
        let ghost v0 = self@;
        let height = self.field.len();
        let mut i: usize = 0;
        while i < height
            invariant
                0 <= i <= height,
                height == v0.height(),
                self.field@.len() == height,
                self@.center == v0.center,
                self.tact == v0.tact,
                forall|k: int|
                    0 <= k < i ==> #[trigger] self.field@[k]@ == seq![State::Unexcitable]
                        + v0.rows[k],
                forall|k: int| i <= k < height ==> #[trigger] self.field@[k]@ == v0.rows[k],
            decreases height - i,
        {
            self.field[i].insert(0, State::Unexcitable);
            assert(self.field@[i as int]@ =~= seq![State::Unexcitable] + v0.rows[i as int]);
            i = i + 1;
        }
        self.center.0 = self.center.0 + 1;
        let ghost v1 = self@;
        assert(v1.rows[0] == seq![State::Unexcitable] + v0.rows[0]);
        assert forall|k: int| 0 <= k < v1.height() implies #[trigger] v1.rows[k].len()
            == v1.width() by {
            assert(v1.rows[k] == seq![State::Unexcitable] + v0.rows[k]);
        }
        assert forall|x: int, y: int| #[trigger] v1.cell(x, y) == v0.cell(x, y) by {
            if v1.contains(x, y) {
                let k = y + v1.center.1;
                assert(v1.rows[k] == seq![State::Unexcitable] + v0.rows[k]);
            }
        }
    }

    /// Adds an unexcitable column right of the grid.
    fn push_column_back(&mut self)
        requires
            old(self)@.wf(),
            old(self)@.right() < GRID_LIMIT,
        ensures
            final(self)@.wf(),
            final(self)@.same_cells(old(self)@),
            final(self)@.top() == old(self)@.top(),
            final(self)@.left() == old(self)@.left(),
            final(self)@.bottom() == old(self)@.bottom(),
            final(self)@.right() == old(self)@.right() + 1,
    {
        let ghost v0 = self@;
        let height = self.field.len();
        let mut i: usize = 0;
        while i < height
            invariant
                0 <= i <= height,
                height == v0.height(),
                self.field@.len() == height,
                self@.center == v0.center,
                self.tact == v0.tact,
                forall|k: int|
                    0 <= k < i ==> #[trigger] self.field@[k]@ == v0.rows[k].push(
                        State::Unexcitable,
                    ),
                forall|k: int| i <= k < height ==> #[trigger] self.field@[k]@ == v0.rows[k],
            decreases height - i,
        {
            self.field[i].push(State::Unexcitable);
            i = i + 1;
        }
        let ghost v1 = self@;
        assert(v1.rows[0] == v0.rows[0].push(State::Unexcitable));
        assert forall|k: int| 0 <= k < v1.height() implies #[trigger] v1.rows[k].len()
            == v1.width() by {
            assert(v1.rows[k] == v0.rows[k].push(State::Unexcitable));
        }
        assert forall|x: int, y: int| #[trigger] v1.cell(x, y) == v0.cell(x, y) by {
            if v1.contains(x, y) {
                let k = y + v1.center.1;
                assert(v1.rows[k] == v0.rows[k].push(State::Unexcitable));
            }
        }
    }

    /// Adds rows above the grid until it reaches row `y - 2`.
    fn grow_up(&mut self, y: i64)
        requires
            old(self)@.wf(),
            -(GRID_LIMIT - 2) <= y <= GRID_LIMIT - 2,
        ensures
            final(self)@.wf(),
            final(self)@.same_cells(old(self)@),
            final(self)@.top() == min(old(self)@.top(), y - 2),
            final(self)@.left() == old(self)@.left(),
            final(self)@.bottom() == old(self)@.bottom(),
            final(self)@.right() == old(self)@.right(),
    {
        let ghost v0 = self@;
        while self.center.1 + y < 2
            invariant
                self@.wf(),
                self@.same_cells(v0),
                -(GRID_LIMIT - 2) <= y <= GRID_LIMIT - 2,
                self@.top() <= v0.top(),
                self@.top() < v0.top() ==> self@.top() >= y - 2,
                self@.left() == v0.left(),
                self@.bottom() == v0.bottom(),
                self@.right() == v0.right(),
            decreases self@.top() - (y - 2),
        {
            self.push_row_front();
        }
    }

    /// Adds columns left of the grid until it reaches column `x - 2`.
    fn grow_left(&mut self, x: i64)
        requires
            old(self)@.wf(),
            -(GRID_LIMIT - 2) <= x <= GRID_LIMIT - 2,
        ensures
            final(self)@.wf(),
            final(self)@.same_cells(old(self)@),
            final(self)@.top() == old(self)@.top(),
            final(self)@.left() == min(old(self)@.left(), x - 2),
            final(self)@.bottom() == old(self)@.bottom(),
            final(self)@.right() == old(self)@.right(),
    {
        let ghost v0 = self@;
        while self.center.0 + x < 2
            invariant
                self@.wf(),
                self@.same_cells(v0),
                -(GRID_LIMIT - 2) <= x <= GRID_LIMIT - 2,
                self@.top() == v0.top(),
                self@.left() <= v0.left(),
                self@.left() < v0.left() ==> self@.left() >= x - 2,
                self@.bottom() == v0.bottom(),
                self@.right() == v0.right(),
            decreases self@.left() - (x - 2),
        {
            self.push_column_front();
        }
    }

    /// Adds rows below the grid until it reaches row `y + 2`.
    fn grow_down(&mut self, y: i64)
        requires
            old(self)@.wf(),
            -(GRID_LIMIT - 2) <= y <= GRID_LIMIT - 2,
        ensures
            final(self)@.wf(),
            final(self)@.same_cells(old(self)@),
            final(self)@.top() == old(self)@.top(),
            final(self)@.left() == old(self)@.left(),
            final(self)@.bottom() == max(old(self)@.bottom(), y + 2),
            final(self)@.right() == old(self)@.right(),
    {
        let ghost v0 = self@;
        while self.center.1 + y >= self.field.len() as i64 - 2
            invariant
                self@.wf(),
                self@.same_cells(v0),
                -(GRID_LIMIT - 2) <= y <= GRID_LIMIT - 2,
                self@.top() == v0.top(),
                self@.left() == v0.left(),
                self@.bottom() >= v0.bottom(),
                self@.bottom() > v0.bottom() ==> self@.bottom() <= y + 2,
                self@.right() == v0.right(),
            decreases y + 2 - self@.bottom(),
        {
            self.push_row_back();
        }
    }

    /// Adds columns right of the grid until it reaches column `x + 2`.
    fn grow_right(&mut self, x: i64)
        requires
            old(self)@.wf(),
            -(GRID_LIMIT - 2) <= x <= GRID_LIMIT - 2,
        ensures
            final(self)@.wf(),
            final(self)@.same_cells(old(self)@),
            final(self)@.top() == old(self)@.top(),
            final(self)@.left() == old(self)@.left(),
            final(self)@.bottom() == old(self)@.bottom(),
            final(self)@.right() == max(old(self)@.right(), x + 2),
    {
        let ghost v0 = self@;
        assert(self@.rows[0] == self.field@[0]@);
        while self.center.0 + x >= self.field[0].len() as i64 - 2
            invariant
                self@.wf(),
                self@.same_cells(v0),
                -(GRID_LIMIT - 2) <= x <= GRID_LIMIT - 2,
                self@.top() == v0.top(),
                self@.left() == v0.left(),
                self@.bottom() == v0.bottom(),
                self@.right() >= v0.right(),
                self@.right() > v0.right() ==> self@.right() <= x + 2,
                self@.rows[0] == self.field@[0]@,
            decreases x + 2 - self@.right(),
        {
            self.push_column_back();
            assert(self@.rows[0] == self.field@[0]@);
        }
    }

    /// Writes `value` at logical coordinates `coords`, first growing the grid
    /// so that it reaches at least two cells beyond them on every side.
    /// Coordinates already in use keep their meaning.
    pub fn set_cell(&mut self, coords: (i64, i64), value: State)
        requires
            old(self)@.wf(),
            -(GRID_LIMIT - 2) <= coords.0 <= GRID_LIMIT - 2,
            -(GRID_LIMIT - 2) <= coords.1 <= GRID_LIMIT - 2,
        ensures
            final(self)@ == old(self)@.set(coords.0 as int, coords.1 as int, value),
            final(self)@.wf(),
    {
        let ghost v0 = self@;
        let (x, y) = coords;
        self.grow_up(y);
        self.grow_left(x);
        self.grow_down(y);
        self.grow_right(x);
        let ghost v1 = self@;
        let i = (self.center.1 + y) as usize;
        let j = (self.center.0 + x) as usize;
        assert(v1.rows[i as int] == self.field@[i as int]@);
        self.field[i][j] = value;
        let ghost v2 = self@;
        let ghost target = v0.set(x as int, y as int, value);
        proof {
            assert(v2.rows =~= v1.rows.update(i as int, v1.rows[i as int].update(j as int, value)));
            lemma_framed(
                v0.tact,
                min(v0.top(), y - 2),
                min(v0.left(), x - 2),
                max(v0.bottom(), y + 2),
                max(v0.right(), x + 2),
                |a: int, b: int|
                    if a == x && b == y {
                        value
                    } else {
                        v0.cell(a, b)
                    },
            );
            assert forall|k: int| 0 <= k < v2.height() implies #[trigger] v2.rows[k].len()
                == v2.width() by {
                if k == i {
                    assert(v2.rows[k] == v1.rows[k].update(j as int, value));
                }
                assert(v2.rows[0].len() == v1.rows[0].len());
            }
            assert forall|a: int, b: int| #[trigger] v2.cell(a, b) == target.cell(a, b) by {
                assert(v1.cell(a, b) == v0.cell(a, b));
            }
            lemma_view_ext(v2, target);
        }
    }
}


impl AutomatonView {
    /// The neighbours of `(x, y)` in the order up, left, down, right.
    pub open spec fn neighbourhood(self, x: int, y: int) -> Seq<State> {
        seq![self.cell(x, y - 1), self.cell(x - 1, y), self.cell(x, y + 1), self.cell(x + 1, y)]
    }

    /// `(x, y)` is a cell of the grid that is not on its outermost border.
    pub open spec fn interior(self, x: int, y: int) -> bool {
        self.top() < y < self.bottom() && self.left() < x < self.right()
    }

    /// The event that the cell at `(x, y)` receives in the next tact: border
    /// cells and cells outside the grid receive none.
    pub open spec fn event_at(self, x: int, y: int) -> Option<Event> {
        if self.interior(x, y) {
            event_for(self.cell(x, y), self.neighbourhood(x, y))
        } else {
            None
        }
    }

    /// The state of `(x, y)` after the next tact.
    pub open spec fn next_cell(self, x: int, y: int) -> State {
        match self.event_at(x, y) {
            Some(e) => self.cell(x, y).transition(e),
            None => self.cell(x, y),
        }
    }

    /// Some cell of the first interior row receives an event.
    pub open spec fn grows_up(self) -> bool {
        exists|x: int| #[trigger] self.event_at(x, self.top() + 1) is Some
    }

    /// Some cell of the last interior row receives an event.
    pub open spec fn grows_down(self) -> bool {
        exists|x: int| #[trigger] self.event_at(x, self.bottom() - 1) is Some
    }

    /// Some cell of the first interior column receives an event.
    pub open spec fn grows_left(self) -> bool {
        exists|y: int| #[trigger] self.event_at(self.left() + 1, y) is Some
    }

    /// Some cell of the last interior column receives an event.
    pub open spec fn grows_right(self) -> bool {
        exists|y: int| #[trigger] self.event_at(self.right() - 1, y) is Some
    }

    /// The view after one tact: every cell takes its next state at once, the
    /// counter advances by one, and the grid grows by one row or column on
    /// each side where a cell next to the border was written.
    pub open spec fn step(self) -> AutomatonView {
        framed(
            self.tact + 1,
            if self.grows_up() {
                self.top() - 1
            } else {
                self.top()
            },
            if self.grows_left() {
                self.left() - 1
            } else {
                self.left()
            },
            if self.grows_down() {
                self.bottom() + 1
            } else {
                self.bottom()
            },
            if self.grows_right() {
                self.right() + 1
            } else {
                self.right()
            },
            |x: int, y: int| self.next_cell(x, y),
        )
    }
}

impl CellularAutomation {
    /// The event of every cell, indexed like `field`.
    fn collect_events(&self) -> (r: Vec<Vec<Option<Event>>>)
        requires
            self@.wf(),
        ensures
            r@.len() == self@.height(),
            forall|i: int|
                0 <= i < self@.height() ==> (#[trigger] r@[i])@.len() == self@.width(),
            forall|i: int, j: int|
                0 <= i < self@.height() && 0 <= j < self@.width() ==> (#[trigger] r@[i]@[j])
                    == self@.event_at(j - self@.center.0, i - self@.center.1),
    {
        let ghost v = self@;
        let height = self.field.len();
        let width = self.field[0].len();
        assert(v.rows[0] == self.field@[0]@);
        let mut events: Vec<Vec<Option<Event>>> = Vec::new();
        let mut y: usize = 0;
        while y < height
            invariant
                v == self@,
                v.wf(),
                height == v.height(),
                width == v.width(),
                y <= height,
                events@.len() == y,
                forall|i: int| 0 <= i < y ==> (#[trigger] events@[i])@.len() == width,
                forall|i: int, j: int|
                    0 <= i < y && 0 <= j < width ==> (#[trigger] events@[i]@[j]) == v.event_at(
                        j - v.center.0,
                        i - v.center.1,
                    ),
            decreases height - y,
        {
            let mut row: Vec<Option<Event>> = Vec::new();
            let mut x: usize = 0;
            while x < width
                invariant
                    v == self@,
                    v.wf(),
                    height == v.height(),
                    width == v.width(),
                    y < height,
                    x <= width,
                    row@.len() == x,
                    forall|j: int|
                        0 <= j < x ==> (#[trigger] row@[j]) == v.event_at(
                            j - v.center.0,
                            y - v.center.1,
                        ),
                decreases width - x,
            {
                let ghost cx = x as int - v.center.0;
                let ghost cy = y as int - v.center.1;
                if y == 0 || y == height - 1 || x == 0 || x == width - 1 {
                    row.push(None);
                } else {
                    assert(v.rows[y - 1] == self.field@[y - 1]@);
                    assert(v.rows[y as int] == self.field@[y as int]@);
                    assert(v.rows[y + 1] == self.field@[y + 1]@);
                    let up = &self.field[y - 1][x];
                    let left = &self.field[y][x - 1];
                    let down = &self.field[y + 1][x];
                    let right = &self.field[y][x + 1];
                    let e = self.field[y][x].get_event([up, left, down, right]);
                    assert(State::neighbours([up, left, down, right]) =~= v.neighbourhood(cx, cy));
                    row.push(e);
                }
                x = x + 1;
            }
            events.push(row);
            y = y + 1;
        }
        events
    }
}


impl AutomatonView {
    /// The cell `(x, y)` receives an event and comes before physical position
    /// `(i, j)` in row-major order.
    spec fn applied(self, i: int, j: int, x: int, y: int) -> bool {
        &&& self.event_at(x, y) is Some
        &&& (y + self.center.1 < i || (y + self.center.1 == i && x + self.center.0 < j))
    }

    /// `cur` is what remains of `self` once the events of every cell before
    /// physical position `(i, j)` have been applied.
    spec fn progress(self, cur: AutomatonView, i: int, j: int) -> bool {
        &&& cur.wf()
        &&& cur.tact == self.tact + 1
        &&& forall|x: int, y: int|
            #[trigger] cur.cell(x, y) == if self.applied(i, j, x, y) {
                self.next_cell(x, y)
            } else {
                self.cell(x, y)
            }
        &&& cur.top() == if exists|x: int| #[trigger] self.applied(i, j, x, self.top() + 1) {
            self.top() - 1
        } else {
            self.top()
        }
        &&& cur.bottom() == if exists|x: int|
            #[trigger] self.applied(i, j, x, self.bottom() - 1) {
            self.bottom() + 1
        } else {
            self.bottom()
        }
        &&& cur.left() == if exists|y: int| #[trigger] self.applied(i, j, self.left() + 1, y) {
            self.left() - 1
        } else {
            self.left()
        }
        &&& cur.right() == if exists|y: int|
            #[trigger] self.applied(i, j, self.right() - 1, y) {
            self.right() + 1
        } else {
            self.right()
        }
    }
}

/// What writing one cell does to a well-formed view.
pub proof fn lemma_set(v: AutomatonView, x: int, y: int, s: State)
    requires
        v.wf(),
        -(GRID_LIMIT - 2) <= x <= GRID_LIMIT - 2,
        -(GRID_LIMIT - 2) <= y <= GRID_LIMIT - 2,
    ensures
        v.set(x, y, s).wf(),
        v.set(x, y, s).tact == v.tact,
        v.set(x, y, s).top() == min(v.top(), y - 2),
        v.set(x, y, s).left() == min(v.left(), x - 2),
        v.set(x, y, s).bottom() == max(v.bottom(), y + 2),
        v.set(x, y, s).right() == max(v.right(), x + 2),
        forall|a: int, b: int|
            #[trigger] v.set(x, y, s).cell(a, b) == if a == x && b == y {
                s
            } else {
                v.cell(a, b)
            },
{
    let f = |a: int, b: int|
        if a == x && b == y {
            s
        } else {
            v.cell(a, b)
        };
    lemma_framed(
        v.tact,
        min(v.top(), y - 2),
        min(v.left(), x - 2),
        max(v.bottom(), y + 2),
        max(v.right(), x + 2),
        f,
    );
    let w = v.set(x, y, s);
    assert(w.rows[0].len() == max(v.right(), x + 2) - min(v.left(), x - 2) + 1);
}

proof fn lemma_progress_start(v0: AutomatonView, cur: AutomatonView)
    requires
        v0.wf(),
        cur == (AutomatonView { tact: v0.tact + 1, ..v0 }),
    ensures
        v0.progress(cur, 1, 1),
{
    assert forall|x: int, y: int| !#[trigger] v0.applied(1, 1, x, y) by {}
    assert forall|x: int, y: int| #[trigger] cur.cell(x, y) == v0.cell(x, y) by {}
}

proof fn lemma_progress_none(v0: AutomatonView, cur: AutomatonView, i: int, j: int)
    requires
        v0.wf(),
        v0.progress(cur, i, j),
        v0.event_at(j - v0.center.0, i - v0.center.1) is None,
    ensures
        v0.progress(cur, i, j + 1),
{
    assert forall|x: int, y: int|
        #![trigger v0.applied(i, j + 1, x, y)]
        #![trigger v0.applied(i, j, x, y)]
        v0.applied(i, j + 1, x, y) == v0.applied(i, j, x, y) by {}
}

proof fn lemma_progress_some(v0: AutomatonView, cur: AutomatonView, i: int, j: int, e: Event)
    requires
        v0.wf(),
        v0.has_room(),
        v0.progress(cur, i, j),
        v0.event_at(j - v0.center.0, i - v0.center.1) == Some(e),
    ensures
        v0.progress(
            cur.set(
                j - v0.center.0,
                i - v0.center.1,
                cur.cell(j - v0.center.0, i - v0.center.1).transition(e),
            ),
            i,
            j + 1,
        ),
{
    let x = j - v0.center.0;
    let y = i - v0.center.1;
    let s = cur.cell(x, y).transition(e);
    lemma_set(cur, x, y, s);
    let nxt = cur.set(x, y, s);
    assert(!v0.applied(i, j, x, y));
    assert forall|a: int, b: int| #[trigger] v0.applied(i, j + 1, a, b) == (v0.applied(i, j, a, b) || (a
        == x && b == y)) by {}
    assert forall|a: int, b: int| #[trigger] nxt.cell(a, b) == if v0.applied(i, j + 1, a, b) {
        v0.next_cell(a, b)
    } else {
        v0.cell(a, b)
    } by {
        assert(v0.applied(i, j + 1, a, b) == (v0.applied(i, j, a, b) || (a == x && b == y)));
    }
    if y == v0.top() + 1 {
        assert(v0.applied(i, j + 1, x, v0.top() + 1));
    } else {
        assert forall|a: int|
            #![trigger v0.applied(i, j + 1, a, v0.top() + 1)]
            #![trigger v0.applied(i, j, a, v0.top() + 1)]
            v0.applied(i, j + 1, a, v0.top() + 1) == v0.applied(
            i,
            j,
            a,
            v0.top() + 1,
        ) by {
            assert(v0.applied(i, j + 1, a, v0.top() + 1) == (v0.applied(i, j, a, v0.top() + 1)
                || (a == x && v0.top() + 1 == y)));
        }
    }
    if y == v0.bottom() - 1 {
        assert(v0.applied(i, j + 1, x, v0.bottom() - 1));
    } else {
        assert forall|a: int|
            #![trigger v0.applied(i, j + 1, a, v0.bottom() - 1)]
            #![trigger v0.applied(i, j, a, v0.bottom() - 1)]
            v0.applied(i, j + 1, a, v0.bottom() - 1) == v0.applied(
            i,
            j,
            a,
            v0.bottom() - 1,
        ) by {
            assert(v0.applied(i, j + 1, a, v0.bottom() - 1) == (v0.applied(
                i,
                j,
                a,
                v0.bottom() - 1,
            ) || (a == x && v0.bottom() - 1 == y)));
        }
    }
    if x == v0.left() + 1 {
        assert(v0.applied(i, j + 1, v0.left() + 1, y));
    } else {
        assert forall|b: int|
            #![trigger v0.applied(i, j + 1, v0.left() + 1, b)]
            #![trigger v0.applied(i, j, v0.left() + 1, b)]
            v0.applied(i, j + 1, v0.left() + 1, b) == v0.applied(
            i,
            j,
            v0.left() + 1,
            b,
        ) by {
            assert(v0.applied(i, j + 1, v0.left() + 1, b) == (v0.applied(i, j, v0.left() + 1, b)
                || (v0.left() + 1 == x && b == y)));
        }
    }
    if x == v0.right() - 1 {
        assert(v0.applied(i, j + 1, v0.right() - 1, y));
    } else {
        assert forall|b: int|
            #![trigger v0.applied(i, j + 1, v0.right() - 1, b)]
            #![trigger v0.applied(i, j, v0.right() - 1, b)]
            v0.applied(i, j + 1, v0.right() - 1, b) == v0.applied(
            i,
            j,
            v0.right() - 1,
            b,
        ) by {
            assert(v0.applied(i, j + 1, v0.right() - 1, b) == (v0.applied(
                i,
                j,
                v0.right() - 1,
                b,
            ) || (v0.right() - 1 == x && b == y)));
        }
    }
}

proof fn lemma_progress_row(v0: AutomatonView, cur: AutomatonView, i: int)
    requires
        v0.wf(),
        v0.progress(cur, i, v0.width() - 1),
    ensures
        v0.progress(cur, i + 1, 1),
{
    assert forall|x: int, y: int|
        #![trigger v0.applied(i + 1, 1, x, y)]
        #![trigger v0.applied(i, v0.width() - 1, x, y)]
        v0.applied(i + 1, 1, x, y) == v0.applied(i, v0.width() - 1, x, y) by {}
}

proof fn lemma_progress_end(v0: AutomatonView, cur: AutomatonView)
    requires
        v0.wf(),
        v0.progress(cur, v0.height() - 1, 1),
    ensures
        cur == v0.step(),
{
    let h = v0.height() - 1;
    assert forall|x: int, y: int| #[trigger] v0.applied(h, 1, x, y) == (v0.event_at(x, y) is Some) by {}
    let t = if v0.grows_up() {
        v0.top() - 1
    } else {
        v0.top()
    };
    let l = if v0.grows_left() {
        v0.left() - 1
    } else {
        v0.left()
    };
    let b = if v0.grows_down() {
        v0.bottom() + 1
    } else {
        v0.bottom()
    };
    let r = if v0.grows_right() {
        v0.right() + 1
    } else {
        v0.right()
    };
    if v0.grows_up() {
        let x = choose|x: int| #[trigger] v0.event_at(x, v0.top() + 1) is Some;
        assert(v0.applied(h, 1, x, v0.top() + 1));
    }
    if v0.grows_down() {
        let x = choose|x: int| #[trigger] v0.event_at(x, v0.bottom() - 1) is Some;
        assert(v0.applied(h, 1, x, v0.bottom() - 1));
    }
    if v0.grows_left() {
        let y = choose|y: int| #[trigger] v0.event_at(v0.left() + 1, y) is Some;
        assert(v0.applied(h, 1, v0.left() + 1, y));
    }
    if v0.grows_right() {
        let y = choose|y: int| #[trigger] v0.event_at(v0.right() - 1, y) is Some;
        assert(v0.applied(h, 1, v0.right() - 1, y));
    }
    lemma_framed(v0.tact + 1, t, l, b, r, |x: int, y: int| v0.next_cell(x, y));
    let st = v0.step();
    assert(st.rows[0].len() == r - l + 1);
    assert forall|x: int, y: int| #[trigger] cur.cell(x, y) == st.cell(x, y) by {
        if v0.event_at(x, y) is Some {
            assert(v0.applied(h, 1, x, y));
        }
    }
    lemma_view_ext(cur, st);
}


impl CellularAutomation {
    /// Applies the events collected from `v0` to every interior cell, in
    /// row-major order; each cell is read before it is written.
    fn apply_events(
        &mut self,
        events: &Vec<Vec<Option<Event>>>,
        origin: (i64, i64),
        Ghost(v0): Ghost<AutomatonView>,
    )
        requires
            v0.wf(),
            v0.has_room(),
            v0.progress(old(self)@, 1, 1),
            origin.0 == v0.center.0,
            origin.1 == v0.center.1,
            events@.len() == v0.height(),
            forall|i: int| 0 <= i < v0.height() ==> (#[trigger] events@[i])@.len() == v0.width(),
            forall|i: int, j: int|
                0 <= i < v0.height() && 0 <= j < v0.width() ==> (#[trigger] events@[i]@[j])
                    == v0.event_at(j - v0.center.0, i - v0.center.1),
        ensures
            final(self)@ == v0.step(),
    {
        let height = events.len();
        let width = events[0].len();
        let mut i: usize = 1;
        while i < height - 1
            invariant
                v0.wf(),
                v0.has_room(),
                origin.0 == v0.center.0,
                origin.1 == v0.center.1,
                height == v0.height(),
                width == v0.width(),
                events@.len() == v0.height(),
                forall|i: int|
                    0 <= i < v0.height() ==> (#[trigger] events@[i])@.len() == v0.width(),
                forall|i: int, j: int|
                    0 <= i < v0.height() && 0 <= j < v0.width() ==> (#[trigger] events@[i]@[j])
                        == v0.event_at(j - v0.center.0, i - v0.center.1),
                1 <= i <= height - 1,
                v0.progress(self@, i as int, 1),
            decreases height - i,
        {
            let mut j: usize = 1;
            while j < width - 1
                invariant
                    v0.wf(),
                    v0.has_room(),
                    origin.0 == v0.center.0,
                    origin.1 == v0.center.1,
                    height == v0.height(),
                    width == v0.width(),
                    events@.len() == v0.height(),
                    forall|i: int|
                        0 <= i < v0.height() ==> (#[trigger] events@[i])@.len() == v0.width(),
                    forall|i: int, j: int|
                        0 <= i < v0.height() && 0 <= j < v0.width() ==> (#[trigger] events@[i]@[j])
                            == v0.event_at(j - v0.center.0, i - v0.center.1),
                    1 <= i < height - 1,
                    1 <= j <= width - 1,
                    v0.progress(self@, i as int, j as int),
                decreases width - j,
            {
                let ghost cur = self@;
                let ghost x = j - v0.center.0;
                let ghost y = i - v0.center.1;
                match events[i][j] {
                    Some(e) => {
                        let coords = (j as i64 - origin.0, i as i64 - origin.1);
                        proof {
                            lemma_event_accepted(v0.cell(x, y), v0.neighbourhood(x, y));
                            assert(!v0.applied(i as int, j as int, x, y));
                            assert(cur.cell(x, y) == v0.cell(x, y));
                            lemma_progress_some(v0, cur, i as int, j as int, e);
                        }
                        let state = *self.get_cell(coords);
                        self.set_cell(coords, state.next(e));
                    },
                    None => {
                        proof {
                            lemma_progress_none(v0, cur, i as int, j as int);
                        }
                    },
                }
                j = j + 1;
            }
            proof {
                lemma_progress_row(v0, self@, i as int);
            }
            i = i + 1;
        }
        proof {
            lemma_progress_end(v0, self@);
        }
    }

    /// Advances the automaton by one tact: every interior cell derives its
    /// event from the states its neighbours had before the tact, then every
    /// event is applied, growing the grid where a written cell nears its edge.
    pub fn tact(&mut self)
        requires
            old(self)@.wf(),
            old(self)@.has_room(),
            old(self).tact < u64::MAX,
        ensures
            final(self)@ == old(self)@.step(),
            final(self)@.wf(),
    {
        let ghost v0 = self@;
        self.tact = self.tact + 1;
        proof {
            assert(self@.rows == v0.rows);
            lemma_progress_start(v0, self@);
        }
        let events = self.collect_events();
        let origin = self.center;
        self.apply_events(&events, origin, Ghost(v0));
    }
}


/// One tact keeps the grid well formed, grows it by at most one cell on each
/// side, and gives every cell its next state.
pub proof fn lemma_step(v: AutomatonView)
    requires
        v.wf(),
        v.has_room(),
    ensures
        v.step().wf(),
        v.step().tact == v.tact + 1,
        v.top() - 1 <= v.step().top() <= v.top(),
        v.left() - 1 <= v.step().left() <= v.left(),
        v.bottom() <= v.step().bottom() <= v.bottom() + 1,
        v.right() <= v.step().right() <= v.right() + 1,
        forall|x: int, y: int| #[trigger] v.step().cell(x, y) == v.next_cell(x, y),
{
    let t = if v.grows_up() {
        v.top() - 1
    } else {
        v.top()
    };
    let l = if v.grows_left() {
        v.left() - 1
    } else {
        v.left()
    };
    let b = if v.grows_down() {
        v.bottom() + 1
    } else {
        v.bottom()
    };
    let r = if v.grows_right() {
        v.right() + 1
    } else {
        v.right()
    };
    lemma_framed(v.tact + 1, t, l, b, r, |x: int, y: int| v.next_cell(x, y));
    let st = v.step();
    assert(st.rows[0].len() == r - l + 1);
    assert forall|x: int, y: int| #[trigger] st.cell(x, y) == v.next_cell(x, y) by {}
    assert forall|x: int, y: int| #[trigger]
        st.cell(x, y) != State::Unexcitable implies st.top() + 2 <= y <= st.bottom() - 2
        && st.left() + 2 <= x <= st.right() - 2 by {
        if v.event_at(x, y) is None {
            assert(v.cell(x, y) != State::Unexcitable);
        } else {
            if y == v.top() + 1 {
                assert(v.event_at(x, v.top() + 1) is Some);
            }
            if y == v.bottom() - 1 {
                assert(v.event_at(x, v.bottom() - 1) is Some);
            }
            if x == v.left() + 1 {
                assert(v.event_at(v.left() + 1, y) is Some);
            }
            if x == v.right() - 1 {
                assert(v.event_at(v.right() - 1, y) is Some);
            }
        }
    }
}

/// An unexcitable cell under a normal transmitting cell that points down with
/// a true signal becomes sensitive with accumulator 1 after one tact; an
/// unexcitable cell that no true signal reaches stays unexcitable.
pub proof fn lemma_unexcitable_seed(v: AutomatonView, x: int, y: int)
    requires
        v.wf(),
        v.has_room(),
        v.cell(x, y) == State::Unexcitable,
    ensures
        v.cell(x, y - 1) == (State::NormalTransmitting { dir: Direction::Down, signal: true })
            ==> v.step().cell(x, y) == (State::Sensitive { value: 1 }),
        !signal_arrives(v.neighbourhood(x, y)) ==> v.step().cell(x, y) == State::Unexcitable,
{
    lemma_step(v);
    assert(v.cell(x, y - 1) != State::Unexcitable ==> v.interior(x, y));
}

/// A transmitting cell that a true signal of the other transmitting kind
/// reaches is destroyed by the next tact.
pub proof fn lemma_collision(v: AutomatonView, x: int, y: int)
    requires
        v.wf(),
        v.has_room(),
    ensures
        (v.cell(x, y) is NormalTransmitting && special_arrives(v.neighbourhood(x, y)))
            ==> v.step().cell(x, y) == State::Unexcitable,
        (v.cell(x, y) is SpecialTransmitting && normal_arrives(v.neighbourhood(x, y), true))
            ==> v.step().cell(x, y) == State::Unexcitable,
{
    lemma_step(v);
    assert(v.cell(x, y) != State::Unexcitable ==> v.interior(x, y));
}

/// Writing the same value at the same coordinates a second time changes
/// nothing: the grid's size and origin stay as the first write left them.
pub proof fn lemma_set_twice(v: AutomatonView, x: int, y: int, s: State)
    requires
        v.wf(),
        -(GRID_LIMIT - 2) <= x <= GRID_LIMIT - 2,
        -(GRID_LIMIT - 2) <= y <= GRID_LIMIT - 2,
    ensures
        v.set(x, y, s).set(x, y, s) == v.set(x, y, s),
{
    lemma_set(v, x, y, s);
    let w = v.set(x, y, s);
    lemma_set(w, x, y, s);
    let w2 = w.set(x, y, s);
    assert forall|a: int, b: int| #[trigger] w2.cell(a, b) == w.cell(a, b) by {}
    lemma_view_ext(w2, w);
}


fn copy_row(row: &Vec<State>) -> (r: Vec<State>)
    ensures
        r@ == row@,
{
    let mut copy: Vec<State> = Vec::new();
    let mut j: usize = 0;
    while j < row.len()
        invariant
            j <= row@.len(),
            copy@ == row@.subrange(0, j as int),
        decreases row@.len() - j,
    {
        copy.push(row[j]);
        j = j + 1;
        assert(copy@ =~= row@.subrange(0, j as int));
    }
    assert(copy@ =~= row@);
    copy
}

impl Clone for CellularAutomation {
    /// A deep copy: the rows are copied cell by cell in their order.
    fn clone(&self) -> (r: CellularAutomation)
        ensures
            r@ == self@,
    {
        let mut field: Vec<Vec<State>> = Vec::new();
        let mut i: usize = 0;
        while i < self.field.len()
            invariant
                i <= self.field@.len(),
                field@.len() == i,
                forall|k: int| 0 <= k < i ==> (#[trigger] field@[k])@ == self.field@[k]@,
            decreases self.field@.len() - i,
        {
            field.push(copy_row(&self.field[i]));
            i = i + 1;
        }
        let r = CellularAutomation { field, tact: self.tact, center: self.center };
        assert(r@.rows =~= self@.rows);
        r
    }
}


impl AutomatonView {
    /// The grid can grow by one cell on every side in each of `n` tacts, and
    /// the counter can advance by `n`.
    pub open spec fn room_for(self, n: nat) -> bool {
        &&& -GRID_LIMIT + n <= self.top()
        &&& self.bottom() + n <= GRID_LIMIT
        &&& -GRID_LIMIT + n <= self.left()
        &&& self.right() + n <= GRID_LIMIT
        &&& self.tact + n <= u64::MAX
    }
}

impl CellularAutomation {
    /// Whether the grid can grow by one cell on every side in each of `n`
    /// tacts and the counter can advance by `n`.
    pub fn has_room_for(&self, n: u64) -> (r: bool)
        requires
            self@.wf(),
        ensures
            r == self@.room_for(n as nat),
    {
        if n > GRID_LIMIT as u64 || self.tact > u64::MAX - n {
            return false;
        }
        let n = n as i64;
        let height = self.field.len() as i64;
        let width = self.field[0].len() as i64;
        assert(self@.rows[0] == self.field@[0]@);
        -GRID_LIMIT + n <= -self.center.1 && height - 1 - self.center.1 + n <= GRID_LIMIT
            && -GRID_LIMIT + n <= -self.center.0 && width - 1 - self.center.0 + n <= GRID_LIMIT
    }

    /// Builds an automaton from its parts, as a snapshot stores them, or
    /// `None` when they do not form a well-formed grid.
    pub fn restore(field: Vec<Vec<State>>, tact: u64, center: (i64, i64)) -> (r: Option<
        CellularAutomation,
    >)
        ensures
            r is Some <==> (CellularAutomation { field, tact, center })@.wf(),
            r is Some ==> r.unwrap()@ == (CellularAutomation { field, tact, center })@,
    {
        let ghost v = (CellularAutomation { field, tact, center })@;
        let height = field.len();
        if height < 3 {
            return None;
        }
        let width = field[0].len();
        assert(v.rows[0] == field@[0]@);
        if width < 3 || height > GRID_LIMIT as usize * 2 + 1 || width > GRID_LIMIT as usize * 2
            + 1 {
            return None;
        }
        let (cx, cy) = center;
        let h = height as i64;
        let w = width as i64;
        if cy > GRID_LIMIT || cy < h - 1 - GRID_LIMIT || cx > GRID_LIMIT || cx < w - 1
            - GRID_LIMIT {
            return None;
        }
        let mut i: usize = 0;
        while i < height
            invariant
                v == (CellularAutomation { field, tact, center })@,
                height == v.height(),
                width == v.width(),
                3 <= height,
                3 <= width,
                i <= height,
                forall|k: int| 0 <= k < i ==> #[trigger] v.rows[k].len() == v.width(),
                forall|k: int, j: int|
                    0 <= k < i && 0 <= j < width && (#[trigger] v.rows[k][j])
                        != State::Unexcitable ==> 2 <= k < height - 2 && 2 <= j < width - 2,
            decreases height - i,
        {
            assert(v.rows[i as int] == field@[i as int]@);
            if field[i].len() != width {
                assert(v.rows[i as int].len() != v.width());
                return None;
            }
            let mut j: usize = 0;
            while j < width
                invariant
                    v == (CellularAutomation { field, tact, center })@,
                    height == v.height(),
                    width == v.width(),
                    i < height,
                    j <= width,
                    v.rows[i as int] == field@[i as int]@,
                    v.rows[i as int].len() == width,
                    forall|jj: int|
                        0 <= jj < j && (#[trigger] v.rows[i as int][jj]) != State::Unexcitable
                            ==> 2 <= i < height - 2 && 2 <= jj < width - 2,
                decreases width - j,
            {
                if field[i][j] != State::Unexcitable {
                    if i < 2 || i >= height - 2 || j < 2 || j >= width - 2 {
                        proof {
                            let x = j - v.center.0;
                            let y = i - v.center.1;
                            assert(v.cell(x, y) == v.rows[i as int][j as int]);
                        }
                        return None;
                    }
                }
                j = j + 1;
            }
            i = i + 1;
        }
        proof {
            assert forall|x: int, y: int| #[trigger]
                v.cell(x, y) != State::Unexcitable implies v.top() + 2 <= y <= v.bottom() - 2
                && v.left() + 2 <= x <= v.right() - 2 by {
                let k = y + v.center.1;
                let j = x + v.center.0;
                assert(v.rows[k][j] != State::Unexcitable);
            }
        }
        Some(CellularAutomation { field, tact, center })
    }
}

} // verus!
