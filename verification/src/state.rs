//! The engine interface and the engine chooser.
//!
//! `State` is the capability interface every simulation engine offers:
//! advancing the live set by one tick, inserting cells, and querying the
//! population.  Callers depend only on this interface; the concrete
//! engine — sequential or pool-backed — is chosen once, at construction.

use vstd::prelude::*;
use crate::cell::Cell;
use crate::cell::view_shifted;
use crate::cell::view_shift;
use crate::cell::in_window;
use crate::rules::next_generation;
use crate::live_set::LiveSet;

verus! {

/// A simulation engine: the live set, a generation counter, and the
/// operations of one driver step.
///
/// The contract of `tick` is the heart of the library: whatever engine
/// runs it, the live set afterwards is exactly `next_generation` of the
/// live set before, so the sequential and the pool-backed engine are
/// interchangeable.
pub trait State: Sized {
    /// The set of currently-live cells.
    spec fn live(&self) -> Set<Cell>;

    /// The tick counter.
    spec fn gen(&self) -> int;

    /// The engine's internal well-formedness.
    spec fn wf(&self) -> bool;

    /// Advances the live set by one tick of the rules.  The generation
    /// counter grows by exactly one when the population was non-empty at
    /// the start of the tick, and stays frozen on an empty board.
    fn tick(&mut self)
        requires
            old(self).wf(),
            old(self).gen() < usize::MAX as int,
        ensures
            final(self).wf(),
            final(self).live() == next_generation(old(self).live()),
            final(self).gen() == if old(self).live().is_empty() {
                old(self).gen()
            } else {
                old(self).gen() + 1
            },
    ;

    /// Bulk-inserts coordinates into the live set; duplicates and
    /// already-live cells change nothing.
    fn insert_cells(&mut self, cells: Vec<Cell>)
        requires
            old(self).wf(),
        ensures
            final(self).wf(),
            final(self).live() == old(self).live().union(cells@.to_set()),
            final(self).gen() == old(self).gen(),
    ;

    /// Bulk-inserts coordinates translated by the caller's view offset,
    /// so a loaded pattern is pasted under the current viewport.
    fn insert_cells_rel(&mut self, cells: Vec<Cell>, view: (i32, i32))
        requires
            old(self).wf(),
        ensures
            final(self).wf(),
            final(self).live() == old(self).live().union(
                cells@.map_values(|c: Cell| view_shifted(c, view)).to_set(),
            ),
            final(self).gen() == old(self).gen(),
    ;

    /// Inserts one coordinate.
    fn insert_cell(&mut self, cell: Cell)
        requires
            old(self).wf(),
        ensures
            final(self).wf(),
            final(self).live() == old(self).live().insert(cell),
            final(self).gen() == old(self).gen(),
    ;

    /// Inserts one coordinate translated by the caller's view offset.
    fn insert_cell_rel(&mut self, cell: Cell, view: (i32, i32))
        requires
            old(self).wf(),
        ensures
            final(self).wf(),
            final(self).live() == old(self).live().insert(view_shifted(cell, view)),
            final(self).gen() == old(self).gen(),
    ;

    /// A copy of the live set as a vector, in no particular order and
    /// without duplicates.  The engine's own state is not exposed.
    fn collect_cells(&self) -> (v: Vec<Cell>)
        requires
            self.wf(),
        ensures
            v@.to_set() == self.live(),
            v@.no_duplicates(),
            v@.len() == self.live().len(),
    ;

    /// The population count.
    fn count_cells(&self) -> (n: usize)
        requires
            self.wf(),
        ensures
            n == self.live().len(),
            self.live().finite(),
    ;

    /// One live cell, drawn at random.  Calling this on an empty
    /// population is a caller error, ruled out by the precondition.
    fn random_cell(&self) -> (c: Cell)
        requires
            self.wf(),
            !self.live().is_empty(),
        ensures
            self.live().contains(c),
    ;

    /// The current tick counter.
    fn generation(&self) -> (g: usize)
        requires
            self.wf(),
        ensures
            g as int == self.gen(),
    ;

    /// The live cells strictly inside a rectangular window, for the
    /// renderer: every visible cell once, in no particular order.
    fn visible_cells(&self, left: i32, right: i32, top: i32, bottom: i32) -> (v: Vec<Cell>)
        requires
            self.wf(),
        ensures
            v@.no_duplicates(),
            v@.to_set() == Set::new(
                |c: Cell|
                    self.live().contains(c) && in_window(
                        c,
                        left as int,
                        right as int,
                        top as int,
                        bottom as int,
                    ),
            ),
    ;
}

/// A simulation engine of either execution strategy.  Callers go through
/// the `State` interface and never depend on which one was chosen.
pub enum Engine {
    /// The sequential engine.
    Single(crate::single::SingleState),
    /// The pool-backed engine.
    Parallel(crate::parallel::ParallelState),
}

impl State for Engine {
    closed spec fn live(&self) -> Set<Cell> {
        match self {
            Engine::Single(s) => s.live(),
            Engine::Parallel(p) => p.live(),
        }
    }

    closed spec fn gen(&self) -> int {
        match self {
            Engine::Single(s) => s.gen(),
            Engine::Parallel(p) => p.gen(),
        }
    }

    closed spec fn wf(&self) -> bool {
        match self {
            Engine::Single(s) => s.wf(),
            Engine::Parallel(p) => p.wf(),
        }
    }

    fn tick(&mut self) {
        match self {
            Engine::Single(s) => s.tick(),
            Engine::Parallel(p) => p.tick(),
        }
    }

    fn insert_cells(&mut self, cells: Vec<Cell>) {
        match self {
            Engine::Single(s) => s.insert_cells(cells),
            Engine::Parallel(p) => p.insert_cells(cells),
        }
    }

    fn insert_cells_rel(&mut self, cells: Vec<Cell>, view: (i32, i32)) {
        match self {
            Engine::Single(s) => s.insert_cells_rel(cells, view),
            Engine::Parallel(p) => p.insert_cells_rel(cells, view),
        }
    }

    fn insert_cell(&mut self, cell: Cell) {
        match self {
            Engine::Single(s) => s.insert_cell(cell),
            Engine::Parallel(p) => p.insert_cell(cell),
        }
    }

    fn insert_cell_rel(&mut self, cell: Cell, view: (i32, i32)) {
        match self {
            Engine::Single(s) => s.insert_cell_rel(cell, view),
            Engine::Parallel(p) => p.insert_cell_rel(cell, view),
        }
    }

    fn collect_cells(&self) -> (v: Vec<Cell>) {
        match self {
            Engine::Single(s) => s.collect_cells(),
            Engine::Parallel(p) => p.collect_cells(),
        }
    }

    fn count_cells(&self) -> (n: usize) {
        match self {
            Engine::Single(s) => s.count_cells(),
            Engine::Parallel(p) => p.count_cells(),
        }
    }

    fn random_cell(&self) -> (c: Cell) {
        match self {
            Engine::Single(s) => s.random_cell(),
            Engine::Parallel(p) => p.random_cell(),
        }
    }

    fn generation(&self) -> (g: usize) {
        match self {
            Engine::Single(s) => s.generation(),
            Engine::Parallel(p) => p.generation(),
        }
    }

    fn visible_cells(&self, left: i32, right: i32, top: i32, bottom: i32) -> (v: Vec<Cell>) {
        match self {
            Engine::Single(s) => s.visible_cells(left, right, top, bottom),
            Engine::Parallel(p) => p.visible_cells(left, right, top, bottom),
        }
    }
}

/// Chooses the engine for the available hardware concurrency, which the
/// caller detects: the pool-backed engine with that many workers where it
/// is known, the sequential engine where it is not.
pub fn state(parallelism: Option<usize>) -> (e: Engine)
    requires
        parallelism matches Some(w) ==> w >= 1,
    ensures
        e.wf(),
        e.live() == Set::<Cell>::empty(),
        e.gen() == 0,
{
    match parallelism {
        Some(w) => Engine::Parallel(crate::parallel::parallel_state(w)),
        None => Engine::Single(crate::single::single_state()),
    }
}

/// Relies on `rand`: `random_range` over `0..n` returns a value of the
/// range, drawn uniformly from the thread-local generator.  It panics on
/// an empty range, which the precondition rules out.  Nothing can be
/// promised about which value comes back, so the contract only bounds it.
#[verifier::external_body]
pub(crate) fn random_index(n: usize) -> (r: usize)
    requires
        n >= 1,
    ensures
        r < n,
{
    rand::random_range(0..n)
}

/// Inserts every cell of `cells`, each translated by the view offset.
#[verifier::loop_isolation(false)]
pub(crate) fn insert_shifted(live: &mut LiveSet, cells: &Vec<Cell>, view: (i32, i32))
    ensures
        final(live)@ == old(live)@.union(
            cells@.map_values(|c: Cell| view_shifted(c, view)).to_set(),
        ),
{
    let ghost f = |c: Cell| view_shifted(c, view);
    let mut shifted: Vec<Cell> = Vec::new();
    for i in 0..cells.len()
        invariant
            shifted@ == cells@.take(i as int).map_values(f),
    {
        shifted.push(view_shift(cells[i], view));
        proof {
            assert(shifted@ =~= cells@.take(i + 1).map_values(f));
        }
    }
    live.insert_all(&shifted);
    proof {
        assert(cells@.take(cells@.len() as int) =~= cells@);
    }
}

/// One live cell of the set, picked at a random position of a snapshot.
pub(crate) fn random_of(live: &LiveSet) -> (c: Cell)
    requires
        !live@.is_empty(),
    ensures
        live@.contains(c),
{
    let v = live.to_vec();
    proof {
        if v@.len() == 0 {
            assert(v@.to_set() =~= Set::<Cell>::empty());
        }
    }
    let i = random_index(v.len());
    let c = v[i];
    proof {
        assert(v@.to_set().contains(c));
    }
    c
}

/// The live cells strictly inside the window, each exactly once.
#[verifier::loop_isolation(false)]
pub(crate) fn filter_window(live: &LiveSet, left: i32, right: i32, top: i32, bottom: i32) -> (v:
    Vec<Cell>)
    ensures
        v@.no_duplicates(),
        v@.to_set() == Set::new(
            |c: Cell|
                live@.contains(c) && in_window(
                    c,
                    left as int,
                    right as int,
                    top as int,
                    bottom as int,
                ),
        ),
{
    let all = live.to_vec();
    let ghost win = Set::new(
        |c: Cell|
            live@.contains(c) && in_window(c, left as int, right as int, top as int, bottom as int),
    );
    let mut v: Vec<Cell> = Vec::new();
    for i in 0..all.len()
        invariant
            v@.no_duplicates(),
            forall|j: int| 0 <= j < v@.len() ==> all@.take(i as int).contains(#[trigger] v@[j]),
            v@.to_set() == win.intersect(all@.take(i as int).to_set()),
    {
        let c = all[i];
        let visible = c.0 > left && c.0 < right && c.1 > bottom && c.1 < top;
        proof {
            crate::rules::lemma_take_succ_to_set(all@, i as int);
            if v@.contains(c) {
                let j = choose|j: int| 0 <= j < v@.len() && v@[j] == c;
                let k = choose|k: int| 0 <= k < i as int && all@.take(i as int)[k] == c;
                assert(all@[k] == all@[i as int]);
                assert(false);
            }
            assert(all@.take(i as int).push(c) =~= all@.take(i + 1));
        }
        if visible {
            let ghost v0 = v@;
            v.push(c);
            proof {
                broadcast use vstd::seq_lib::lemma_seq_contains_after_push;

                assert(all@.to_set().contains(c));
                assert(win.contains(c));
                assert forall|d: Cell| v@.contains(d) == (v0.contains(d) || d == c) by {
                    assert(v0.push(c).contains(d) <==> c == d || v0.contains(d));
                };
                assert forall|d: Cell|
                    v@.to_set().contains(d) == win.intersect(
                        all@.take(i + 1).to_set(),
                    ).contains(d) by {
                    assert(v@.contains(d) == (v0.contains(d) || d == c));
                    assert(all@.take(i + 1).to_set() == all@.take(i as int).to_set().insert(c));
                    assert(v0.to_set().contains(d) == win.intersect(
                        all@.take(i as int).to_set(),
                    ).contains(d));
                };
                assert(v@.to_set() =~= win.intersect(all@.take(i + 1).to_set()));
                assert forall|j: int|
                    0 <= j < v@.len() implies all@.take(i + 1).contains(#[trigger] v@[j]) by {
                    if j < v@.len() - 1 {
                        let k = choose|k: int|
                            0 <= k < i as int && all@.take(i as int)[k] == v@[j];
                        assert(all@.take(i + 1)[k] == v@[j]);
                    } else {
                        assert(all@.take(i + 1)[i as int] == c);
                    }
                };
            }
        } else {
            proof {
                assert(all@.to_set().contains(c));
                if win.contains(c) {
                    assert(in_window(c, left as int, right as int, top as int, bottom as int));
                    assert(false);
                }
                assert(v@.to_set() =~= win.intersect(all@.take(i + 1).to_set()));
                assert forall|j: int|
                    0 <= j < v@.len() implies all@.take(i + 1).contains(#[trigger] v@[j]) by {
                    let k = choose|k: int| 0 <= k < i as int && all@.take(i as int)[k] == v@[j];
                    assert(all@.take(i + 1)[k] == v@[j]);
                };
            }
        }
    }
    proof {
        assert(all@.take(all@.len() as int) =~= all@);
        assert(v@.to_set() =~= win);
    }
    v
}

} // verus!
