use vstd::prelude::*;

use crate::cellular_automaton::{initial_view, lemma_step, AutomatonView, CellularAutomation};

verus! {

/// Checkpoints are taken whenever the tact counter is a multiple of this.
pub const HISTORY_INTERVAL: u64 = 100;

/// The view reached from `v` after `n` tacts.
pub open spec fn run(v: AutomatonView, n: nat) -> AutomatonView
    decreases n,
{
    if n == 0 {
        v
    } else {
        run(v, (n - 1) as nat).step()
    }
}

/// `v` is well formed and each of the next `n` tacts from it has room to
/// grow and to advance the counter.
pub open spec fn replays(v: AutomatonView, n: nat) -> bool
    decreases n,
{
    if n == 0 {
        v.wf()
    } else {
        &&& replays(v, (n - 1) as nat)
        &&& run(v, (n - 1) as nat).has_room()
        &&& run(v, (n - 1) as nat).tact < u64::MAX
    }
}

/// `n` tacts advance the counter by `n`; a replay that is possible for `n`
/// tacts is possible for fewer, and ends in a well-formed view.
pub proof fn lemma_run(v: AutomatonView, n: nat, m: nat)
    requires
        replays(v, n),
        m <= n,
    ensures
        run(v, n).tact == v.tact + n,
        run(v, n).wf(),
        replays(v, m),
    decreases n,
{
    if n > 0 {
        lemma_run(v, (n - 1) as nat, if m == n {
            (n - 1) as nat
        } else {
            m
        });
        lemma_step(run(v, (n - 1) as nat));
    }
}

/// Each of the first `k` tacts from `v` grows the grid by at most one cell on
/// every side.
proof fn lemma_run_window(v: AutomatonView, n: nat, k: nat)
    requires
        v.wf(),
        v.room_for(n),
        k <= n,
    ensures
        replays(v, k),
        run(v, k).wf(),
        run(v, k).tact == v.tact + k,
        run(v, k).top() >= v.top() - k,
        run(v, k).left() >= v.left() - k,
        run(v, k).bottom() <= v.bottom() + k,
        run(v, k).right() <= v.right() + k,
    decreases k,
{
    if k > 0 {
        lemma_run_window(v, n, (k - 1) as nat);
        lemma_step(run(v, (k - 1) as nat));
    }
}

/// A grid with room for `n` tacts can replay `n` tacts.
pub proof fn lemma_room(v: AutomatonView, n: nat)
    requires
        v.wf(),
        v.room_for(n),
    ensures
        replays(v, n),
{
    lemma_run_window(v, n, n);
}

/// Running `m` tacts and then `n` more is running `m + n` tacts.
pub proof fn lemma_run_add(v: AutomatonView, m: nat, n: nat)
    ensures
        run(run(v, m), n) == run(v, m + n),
        replays(v, m + n) ==> replays(run(v, m), n),
    decreases n,
{
    if n > 0 {
        lemma_run_add(v, m, (n - 1) as nat);
        assert((m + n - 1) as nat == m + (n - 1) as nat);
    } else if replays(v, m) {
        lemma_run(v, m, m);
    }
}

/// A checkpoint: the tact it was taken at and a copy of the engine.
pub type Checkpoint = (u64, CellularAutomation);

/// The history manager: a live engine and the checkpoints taken from it,
/// oldest first.
pub struct KAVN {
    pub field: CellularAutomation,
    history_points: Vec<Checkpoint>,
}

/// The checkpoints as pairs of a tact and a view.
pub open spec fn checkpoints(v: Seq<Checkpoint>) -> Seq<(nat, AutomatonView)> {
    v.map_values(|p: Checkpoint| (p.0 as nat, p.1@))
}

/// Pops the checkpoints taken after `tact_marker`.
fn drop_newer(points: &mut Vec<Checkpoint>, tact_marker: u64)
    requires
        kept(checkpoints(old(points)@), tact_marker as nat) > 0,
    ensures
        checkpoints(final(points)@) == checkpoints(old(points)@).subrange(
            0,
            kept(checkpoints(old(points)@), tact_marker as nat) as int,
        ),
        kept(checkpoints(old(points)@), tact_marker as nat) == final(points)@.len(),
{
    let ghost p0 = checkpoints(points@);
    let ghost t = tact_marker as nat;
    let ghost target = kept(p0, t);
    while points[points.len() - 1].0 > tact_marker
        invariant
            t == tact_marker as nat,
            points@.len() > 0,
            points@.len() <= p0.len(),
            kept(checkpoints(points@), t) == target,
            target > 0,
            checkpoints(points@) == p0.subrange(0, points@.len() as int),
        decreases points@.len(),
    {
        let ghost before = checkpoints(points@);
        let ghost len = points@.len();
        assert(before.len() == len);
        assert(before[len - 1].0 == points@[len - 1].0 as nat);
        points.pop();
        proof {
            assert(checkpoints(points@) =~= before.drop_last());
            assert(kept(before, t) == kept(before.drop_last(), t));
            assert(before.drop_last() =~= p0.subrange(0, len - 1));
        }
    }
    proof {
        let p = checkpoints(points@);
        let len = points@.len();
        assert(p.len() == len);
        assert(p[len - 1].0 == points@[len - 1].0 as nat);
        assert(kept(p, t) == len);
    }
}

/// The mathematical content of a history manager.
pub struct HistoryView {
    pub field: AutomatonView,
    pub points: Seq<(nat, AutomatonView)>,
}

impl View for KAVN {
    type V = HistoryView;

    closed spec fn view(&self) -> HistoryView {
        HistoryView {
            field: self.field@,
            points: checkpoints(self.history_points@),
        }
    }
}

/// The number of checkpoints left once those taken after tact `t` are
/// dropped from the end.
pub open spec fn kept(points: Seq<(nat, AutomatonView)>, t: nat) -> nat
    decreases points.len(),
{
    if points.len() == 0 {
        0
    } else if points.last().0 > t {
        kept(points.drop_last(), t)
    } else {
        points.len()
    }
}

/// The checkpoints are in order of their tacts, each taken at a multiple of
/// `HISTORY_INTERVAL`, and each later one is what replaying an earlier one
/// produces.
pub open spec fn points_wf(points: Seq<(nat, AutomatonView)>) -> bool {
    &&& forall|k: int|
        0 <= k < points.len() ==> {
            &&& (#[trigger] points[k]).0 == points[k].1.tact
            &&& points[k].1.wf()
            &&& points[k].0 % (HISTORY_INTERVAL as nat) == 0
        }
    &&& forall|i: int, j: int|
        0 <= i < j < points.len() ==> {
            &&& (#[trigger] points[i]).0 <= (#[trigger] points[j]).0
            &&& replays(points[i].1, (points[j].0 - points[i].0) as nat)
            &&& run(points[i].1, (points[j].0 - points[i].0) as nat) == points[j].1
        }
}

impl HistoryView {
    /// The checkpoints are consistent and replaying each of them up to the
    /// live tact reproduces the live engine.
    pub open spec fn wf(self) -> bool {
        &&& self.field.wf()
        &&& points_wf(self.points)
        &&& forall|k: int|
            0 <= k < self.points.len() ==> {
                &&& (#[trigger] self.points[k]).0 <= self.field.tact
                &&& replays(self.points[k].1, (self.field.tact - self.points[k].0) as nat)
                &&& run(self.points[k].1, (self.field.tact - self.points[k].0) as nat)
                    == self.field
            }
    }

    /// Tact `t` can be reached: it is not in the past, or a checkpoint at or
    /// before it exists.
    pub open spec fn can_reach(self, t: nat) -> bool {
        t >= self.field.tact || kept(self.points, t) > 0
    }

    /// The engine at tact `t`: replayed forward from the live engine, or from
    /// the newest checkpoint at or before `t` when `t` lies in the past.
    pub open spec fn at_tact(self, t: nat) -> AutomatonView {
        if t >= self.field.tact {
            run(self.field, (t - self.field.tact) as nat)
        } else {
            let cp = self.points[kept(self.points, t) - 1];
            run(cp.1, (t - cp.0) as nat)
        }
    }

    /// Reaching tact `t` from here needs no more room than the grid has.
    pub open spec fn has_room_until(self, t: nat) -> bool {
        t >= self.field.tact ==> replays(self.field, (t - self.field.tact) as nat)
    }
}

/// What `kept` leaves: a prefix whose last checkpoint is at or before `t`,
/// while every dropped one is after `t`.
pub proof fn lemma_kept(points: Seq<(nat, AutomatonView)>, t: nat)
    ensures
        kept(points, t) <= points.len(),
        kept(points, t) > 0 ==> points[kept(points, t) - 1].0 <= t,
        forall|k: int| kept(points, t) <= k < points.len() ==> (#[trigger] points[k]).0 > t,
    decreases points.len(),
{
    if points.len() > 0 && points.last().0 > t {
        lemma_kept(points.drop_last(), t);
        assert forall|k: int| kept(points, t) <= k < points.len() implies (#[trigger] points[k]).0
            > t by {
            if k < points.len() - 1 {
                assert(points[k] == points.drop_last()[k]);
            }
        }
    }
}


/// Dropping the checkpoints taken after `t` and restoring the engine from
/// the newest one left gives a consistent history again.
proof fn lemma_restore(h0: HistoryView, t: nat)
    requires
        h0.wf(),
        kept(h0.points, t) > 0,
    ensures
        (HistoryView {
            field: h0.points[kept(h0.points, t) - 1].1,
            points: h0.points.subrange(0, kept(h0.points, t) as int),
        }).wf(),
{
    lemma_kept(h0.points, t);
    let n = kept(h0.points, t);
    let h = HistoryView {
        field: h0.points[n - 1].1,
        points: h0.points.subrange(0, n as int),
    };
    assert forall|k: int| 0 <= k < n implies #[trigger] h.points[k] == h0.points[k] by {}
    assert forall|k: int| 0 <= k < h.points.len() implies {
        &&& (#[trigger] h.points[k]).0 <= h.field.tact
        &&& replays(h.points[k].1, (h.field.tact - h.points[k].0) as nat)
        &&& run(h.points[k].1, (h.field.tact - h.points[k].0) as nat) == h.field
    } by {
        if k < n - 1 {
            assert(h.points[k] == h0.points[k]);
            assert(h.points[n - 1] == h0.points[n - 1]);
        } else {
            assert(run(h.field, 0) == h.field);
        }
    }
    assert forall|i: int, j: int| 0 <= i < j < h.points.len() implies {
        &&& (#[trigger] h.points[i]).0 <= (#[trigger] h.points[j]).0
        &&& replays(h.points[i].1, (h.points[j].0 - h.points[i].0) as nat)
        &&& run(h.points[i].1, (h.points[j].0 - h.points[i].0) as nat) == h.points[j].1
    } by {
        assert(h.points[i] == h0.points[i]);
        assert(h.points[j] == h0.points[j]);
    }
}

impl KAVN {
    /// A fresh automaton at tact 0 with no checkpoints yet.
    pub fn new() -> (r: KAVN)
        ensures
            r@.wf(),
            r@.field == initial_view(),
            r@.points.len() == 0,
    {
        let r = KAVN { field: CellularAutomation::new(), history_points: Vec::new() };
        assert(r@.points.len() == 0);
        r
    }

    /// A history manager around an existing engine, with no checkpoints yet.
    pub fn with_field(field: CellularAutomation) -> (r: KAVN)
        requires
            field@.wf(),
        ensures
            r@.wf(),
            r@.field == field@,
            r@.points.len() == 0,
    {
        let r = KAVN { field, history_points: Vec::new() };
        assert(r@.points.len() == 0);
        r
    }

    /// Advances the live engine by one tact, first taking a checkpoint when
    /// the tact counter is a multiple of `HISTORY_INTERVAL`.
    pub fn next_tact(&mut self)
        requires
            old(self)@.wf(),
            old(self)@.field.has_room(),
            old(self)@.field.tact < u64::MAX,
        ensures
            final(self)@.wf(),
            final(self)@.field == old(self)@.field.step(),
            final(self)@.points == if old(self)@.field.tact % (HISTORY_INTERVAL as nat) == 0 {
                old(self)@.points.push((old(self)@.field.tact, old(self)@.field))
            } else {
                old(self)@.points
            },
    {
        let ghost h0 = self@;
        if self.field.tact % HISTORY_INTERVAL == 0 {
            let snapshot = self.field.clone();
            self.history_points.push((self.field.tact, snapshot));
            proof {
                assert(self@.points =~= h0.points.push((h0.field.tact, h0.field)));
            }
        }
        let ghost h1 = self@;
        assert(h1.points == self@.points);
        self.field.tact();
        proof {
            let h2 = self@;
            lemma_step(h0.field);
            assert(h2.points == h1.points);
            assert forall|k: int| 0 <= k < h2.points.len() implies {
                &&& (#[trigger] h2.points[k]).0 <= h2.field.tact
                &&& replays(h2.points[k].1, (h2.field.tact - h2.points[k].0) as nat)
                &&& run(h2.points[k].1, (h2.field.tact - h2.points[k].0) as nat) == h2.field
            } by {
                let n = (h0.field.tact - h2.points[k].0) as nat;
                assert((h2.field.tact - h2.points[k].0) as nat == n + 1);
                if k == h0.points.len() {
                    assert(h2.points[k] == (h0.field.tact, h0.field));
                    assert(run(h0.field, 0) == h0.field);
                    assert(replays(h0.field, 0));
                } else {
                    assert(h2.points[k] == h0.points[k]);
                }
                assert(run(h2.points[k].1, n + 1) == run(h2.points[k].1, n).step());
            }
            assert forall|i: int, j: int| 0 <= i < j < h2.points.len() implies {
                &&& (#[trigger] h2.points[i]).0 <= (#[trigger] h2.points[j]).0
                &&& replays(h2.points[i].1, (h2.points[j].0 - h2.points[i].0) as nat)
                &&& run(h2.points[i].1, (h2.points[j].0 - h2.points[i].0) as nat)
                    == h2.points[j].1
            } by {
                assert(h2.points[i] == h0.points[i]);
                if j == h0.points.len() {
                    assert(h2.points[j] == (h0.field.tact, h0.field));
                } else {
                    assert(h2.points[j] == h0.points[j]);
                }
            }
        }
    }

    /// Advances by `n` tacts.
    fn next_tacts(&mut self, n: u64)
        requires
            old(self)@.wf(),
            replays(old(self)@.field, n as nat),
        ensures
            final(self)@.wf(),
            final(self)@.field == run(old(self)@.field, n as nat),
            final(self)@.points.len() >= old(self)@.points.len(),
            final(self)@.points.subrange(0, old(self)@.points.len() as int) == old(self)@.points,
    {
        let ghost h0 = self@;
        let mut k: u64 = 0;
        while k < n
            invariant
                k <= n,
                self@.wf(),
                replays(h0.field, n as nat),
                self@.field == run(h0.field, k as nat),
                self@.points.len() >= h0.points.len(),
                self@.points.subrange(0, h0.points.len() as int) == h0.points,
            decreases n - k,
        {
            proof {
                lemma_run(h0.field, n as nat, (k + 1) as nat);
                lemma_run(h0.field, k as nat, k as nat);
            }
            let ghost before = self@;
            self.next_tact();
            proof {
                assert(self@.points.subrange(0, h0.points.len() as int) =~= before.points.subrange(
                    0,
                    h0.points.len() as int,
                ));
            }
            k = k + 1;
        }
    }

    /// Drops the checkpoints taken after `tact_marker` and restores the live
    /// engine from the newest one that remains.
    fn load_history_point(&mut self, tact_marker: u64)
        requires
            old(self)@.wf(),
            kept(old(self)@.points, tact_marker as nat) > 0,
        ensures
            final(self)@.wf(),
            final(self)@.points == old(self)@.points.subrange(
                0,
                kept(old(self)@.points, tact_marker as nat) as int,
            ),
            final(self)@.field == final(self)@.points.last().1,
    {
        let ghost h0 = self@;
        let ghost t = tact_marker as nat;
        drop_newer(&mut self.history_points, tact_marker);
        let last = self.history_points.len() - 1;
        let ghost kept_points = self@.points;
        let restored = self.history_points[last].1.clone();
        self.field = restored;
        proof {
            lemma_kept(h0.points, t);
            lemma_restore(h0, t);
            assert(self@.points == kept_points);
            assert(self@.field == kept_points[last as int].1);
        }
    }

    /// Whether tact `tact` can be reached: it is not in the past, or a
    /// checkpoint at or before it exists.
    pub fn can_reach(&self, tact: u64) -> (r: bool)
        requires
            self@.wf(),
        ensures
            r == self@.can_reach(tact as nat),
    {
        if tact >= self.field.tact {
            return true;
        }
        proof {
            lemma_kept(self@.points, tact as nat);
        }
        let mut k: usize = self.history_points.len();
        assert(self@.points.subrange(0, k as int) =~= self@.points);
        while k > 0 && self.history_points[k - 1].0 > tact
            invariant
                k <= self.history_points@.len(),
                kept(self@.points, tact as nat) == kept(self@.points.subrange(0, k as int), tact as nat),
                self@.points == checkpoints(self.history_points@),
            decreases k,
        {
            proof {
                let p = self@.points.subrange(0, k as int);
                assert(p.drop_last() =~= self@.points.subrange(0, k - 1));
                assert(p.last().0 == self.history_points@[k - 1].0 as nat);
            }
            k = k - 1;
        }
        proof {
            let p = self@.points.subrange(0, k as int);
            if k > 0 {
                assert(p.last().0 == self.history_points@[k - 1].0 as nat);
            }
        }
        k > 0
    }

    /// Whether the grid has room to replay forward to tact `tact`; when it
    /// has, `to_tact(tact)` may be called as far as room is concerned.
    pub fn has_room_until(&self, tact: u64) -> (r: bool)
        requires
            self@.wf(),
        ensures
            r == (tact < self@.field.tact || self@.field.room_for((tact - self@.field.tact) as nat)),
            r ==> self@.has_room_until(tact as nat),
    {
        if tact < self.field.tact {
            return true;
        }
        let room = self.field.has_room_for(tact - self.field.tact);
        proof {
            if room {
                lemma_room(self@.field, (tact - self.field.tact) as nat);
            }
        }
        room
    }

    /// Moves the automaton to tact `tact`: backwards through the newest
    /// checkpoint at or before it, then forwards by replaying tacts.
    pub fn to_tact(&mut self, tact: u64)
        requires
            old(self)@.wf(),
            old(self)@.can_reach(tact as nat),
            old(self)@.has_room_until(tact as nat),
        ensures
            final(self)@.wf(),
            final(self)@.field == old(self)@.at_tact(tact as nat),
            final(self)@.field.tact == tact,
            tact >= old(self)@.field.tact ==> final(self)@.points.subrange(
                0,
                old(self)@.points.len() as int,
            ) == old(self)@.points,
            tact < old(self)@.field.tact ==> final(self)@.points.subrange(
                0,
                kept(old(self)@.points, tact as nat) as int,
            ) == old(self)@.points.subrange(0, kept(old(self)@.points, tact as nat) as int),
    {
        let ghost h0 = self@;
        proof {
            lemma_kept(h0.points, tact as nat);
        }
        if tact < self.field.tact {
            self.load_history_point(tact);
            proof {
                let h1 = self@;
                let cp = h0.points[kept(h0.points, tact as nat) - 1];
                assert(h1.points.last() == cp);
                let whole = (h0.field.tact - cp.0) as nat;
                lemma_run(cp.1, whole, (tact - cp.0) as nat);
            }
        }
        assert(self@.field.tact == self.field.tact);
        let n = tact - self.field.tact;
        let ghost h1 = self@;
        self.next_tacts(n);
        proof {
            lemma_run(h1.field, n as nat, n as nat);
            if tact < h0.field.tact {
                assert(self@.points.subrange(0, h1.points.len() as int) == h1.points);
                assert(self@.points.subrange(0, h1.points.len() as int) =~= self@.points.subrange(
                    0,
                    kept(h0.points, tact as nat) as int,
                ));
            }
        }
    }

    /// Moves the automaton by `tacts` tacts, forwards or backwards.
    pub fn do_tacts(&mut self, tacts: i64)
        requires
            old(self)@.field.tact <= i64::MAX,
            0 <= old(self)@.field.tact + tacts <= i64::MAX,
            old(self)@.wf(),
            old(self)@.can_reach((old(self)@.field.tact + tacts) as nat),
            old(self)@.has_room_until((old(self)@.field.tact + tacts) as nat),
        ensures
            final(self)@.wf(),
            final(self)@.field == old(self)@.at_tact((old(self)@.field.tact + tacts) as nat),
    {
        assert(self@.field.tact == self.field.tact);
        self.to_tact((self.field.tact as i64 + tacts) as u64);
    }
}


/// Going back to an earlier tact and then forward again to the live tact
/// reproduces the live engine exactly: whatever history `h2` holds after the
/// first move, the second move is possible and ends where `h` was.
pub proof fn lemma_history_round_trip(h: HistoryView, t: nat, h2: HistoryView)
    requires
        h.wf(),
        t <= h.field.tact,
        h.can_reach(t),
        h2.field == h.at_tact(t),
    ensures
        h2.field.tact == t,
        h2.has_room_until(h.field.tact),
        h2.at_tact(h.field.tact) == h.field,
{
    let big_t = h.field.tact;
    if t < big_t {
        lemma_kept(h.points, t);
        let cp = h.points[kept(h.points, t) - 1];
        let whole = (big_t - cp.0) as nat;
        let part = (t - cp.0) as nat;
        lemma_run(cp.1, whole, part);
        lemma_run(cp.1, part, part);
        lemma_run_add(cp.1, part, (big_t - t) as nat);
        assert(part + (big_t - t) as nat == whole);
    } else {
        assert(run(h.field, 0) == h.field);
        assert(replays(h.field, 0));
    }
}

} // verus!
