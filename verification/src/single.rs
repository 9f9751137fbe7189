//! The sequential engine: computes each tick in-process, single-threaded.

use vstd::prelude::*;
use crate::cell::Cell;
use crate::live_set::LiveSet;
use crate::rules::next_generation;
use crate::rules::stage_range;
use crate::rules::apply_stages;
use crate::rules::tiles;
use crate::rules::lemma_partitioned_tick;
use crate::state::State;
use crate::state::insert_shifted;
use crate::state::random_of;
use crate::state::filter_window;

verus! {

/// The single-threaded engine: the live set and the tick counter.
pub struct SingleState {
    cells: LiveSet,
    generation: usize,
}

/// Creates a sequential engine with an empty live set.
pub fn single_state() -> (s: SingleState)
    ensures
        s.wf(),
        s.live() == Set::<Cell>::empty(),
        s.gen() == 0,
{
    SingleState { cells: LiveSet::new(), generation: 0 }
}

impl State for SingleState {
    closed spec fn live(&self) -> Set<Cell> {
        self.cells@
    }

    closed spec fn gen(&self) -> int {
        self.generation as int
    }

    closed spec fn wf(&self) -> bool {
        true
    }

    fn tick(&mut self) {
        let snap = self.cells.to_vec();
        if snap.len() == 0 {
            proof {
                assert(self.cells@ =~= Set::<Cell>::empty());
                assert(next_generation(self.cells@) =~= self.cells@);
            }
            return ;
        }
        let n = snap.len();
        let whole = stage_range(&snap, 0, n, &self.cells);
        let stages = vec![whole];
        proof {
            assert(self.cells@.contains(snap@[0]));
            assert(!old(self).live().is_empty());
        }
        apply_stages(&mut self.cells, &stages);
        self.generation = self.generation + 1;
        proof {
            let ghost bounds: Seq<(usize, usize)> = seq![(0usize, n)];
            assert(tiles(bounds, snap@.len() as int));
            assert(snap@.subrange(0, snap@.len() as int) =~= snap@);
            lemma_partitioned_tick(old(self).live(), snap@, bounds, stages@);
        }
    }

    fn insert_cells(&mut self, cells: Vec<Cell>) {
        self.cells.insert_all(&cells);
    }

    fn insert_cells_rel(&mut self, cells: Vec<Cell>, view: (i32, i32)) {
        insert_shifted(&mut self.cells, &cells, view);
    }

    fn insert_cell(&mut self, cell: Cell) {
        self.cells.insert(cell);
    }

    fn insert_cell_rel(&mut self, cell: Cell, view: (i32, i32)) {
        let shifted = crate::cell::view_shift(cell, view);
        self.cells.insert(shifted);
    }

    fn collect_cells(&self) -> (v: Vec<Cell>) {
        self.cells.to_vec()
    }

    fn count_cells(&self) -> (n: usize) {
        self.cells.len()
    }

    fn random_cell(&self) -> (c: Cell) {
        random_of(&self.cells)
    }

    fn generation(&self) -> (g: usize) {
        self.generation
    }

    fn visible_cells(&self, left: i32, right: i32, top: i32, bottom: i32) -> (v: Vec<Cell>) {
        filter_window(&self.cells, left, right, top, bottom)
    }
}

} // verus!
