//! The pool-backed engine: stages each tick on a fixed pool of worker
//! threads.
//!
//! One tick snapshots the live set, cuts the snapshot into one contiguous
//! partition per worker, has every worker stage its partition against the
//! unchanged pre-tick live set, waits for all of them at a barrier, and
//! then merges all staging buffers single-threadedly.  The contract of
//! `tick` is the same as the sequential engine's — the merged result is
//! `next_generation` of the starting live set, whatever the worker count —
//! which `rules::lemma_partitioned_tick` proves for every tiling.

use vstd::prelude::*;
use std::sync::Arc;
use std::sync::mpsc;
use threadpool::ThreadPool;
use crate::cell::Cell;
use crate::live_set::LiveSet;
use crate::rules::next_generation;
use crate::rules::stage_range;
use crate::rules::staged_range;
use crate::rules::apply_stages;
use crate::rules::partition_bounds;
use crate::rules::lemma_tile_upper;
use crate::rules::lemma_partitioned_tick;
use crate::rules::StageBuffers;
use crate::state::State;
use crate::state::insert_shifted;
use crate::state::random_of;
use crate::state::filter_window;

verus! {

/// `threadpool::ThreadPool`: a fixed set of reusable worker threads,
/// opaque to the verifier.
#[verifier::external_type_specification]
#[verifier::external_body]
pub struct ExThreadPool(ThreadPool);

/// Relies on `threadpool::ThreadPool::new`, which panics when the thread
/// count is zero; the precondition rules that out.
#[verifier::external_body]
fn new_pool(threads: usize) -> ThreadPool
    requires
        threads >= 1,
{
    ThreadPool::new(threads)
}

/// Relies on `threadpool::ThreadPool::execute`: every submitted closure
/// runs exactly once on a pool thread, and a channel receive returns only
/// after the sending closure has finished, so every buffer is complete
/// before this returns — the receive loop is the tick's barrier.  Each
/// closure only calls the verified `stage_range` on its own partition and
/// sends the result back.  If a worker fails, its result never arrives
/// and the receive panics, so a partial staging is never handed on.
#[verifier::external_body]
fn stage_on_pool(pool: &ThreadPool, snap: Vec<Cell>, bounds: &Vec<(usize, usize)>, cells: LiveSet)
    -> (out: Vec<Option<StageBuffers>>)
    requires
        bounds@.len() >= 1,
        forall|i: int|
            0 <= i < bounds@.len() ==> (#[trigger] bounds@[i]).0 <= bounds@[i].1 <= snap@.len(),
    ensures
        out@.len() == bounds@.len(),
        forall|i: int|
            0 <= i < out@.len() ==> ((#[trigger] out@[i]) matches Some(b) && staged_range(
                cells@,
                snap@,
                bounds@[i].0 as int,
                bounds@[i].1 as int,
                b,
            )),
{
    let w = bounds.len();
    let (sn, sc) = (Arc::new(snap), Arc::new(cells));
    let (tx, rx) = mpsc::channel();
    for i in 0..w {
        let (t, s, c, b) = (tx.clone(), sn.clone(), sc.clone(), bounds[i]);
        pool.execute(move || t.send((i, stage_range(&s, b.0, b.1, &c))).unwrap());
    }
    let mut out: Vec<Option<StageBuffers>> = (0..w).map(|_| None).collect();
    for _ in 0..w {
        let (i, r) = rx.recv().unwrap();
        out[i] = Some(r);
    }
    out
}

/// The pool-backed engine: the live set, the worker count fixed at
/// construction, the reusable pool, and the tick counter.
pub struct ParallelState {
    cells: LiveSet,
    thread_amount: usize,
    workers: ThreadPool,
    generation: usize,
}

/// Creates a pool-backed engine with an empty live set: one partition and
/// one pool thread per worker, the pool created once and reused by every
/// tick.
pub fn parallel_state(thread_amount: usize) -> (s: ParallelState)
    requires
        thread_amount >= 1,
    ensures
        s.wf(),
        s.live() == Set::<Cell>::empty(),
        s.gen() == 0,
{
    ParallelState {
        cells: LiveSet::new(),
        thread_amount,
        workers: new_pool(thread_amount),
        generation: 0,
    }
}

impl State for ParallelState {
    closed spec fn live(&self) -> Set<Cell> {
        self.cells@
    }

    closed spec fn gen(&self) -> int {
        self.generation as int
    }

    closed spec fn wf(&self) -> bool {
        self.thread_amount >= 1
    }

    #[verifier::loop_isolation(false)]
    fn tick(&mut self) {
        let snap = self.cells.to_vec();
        if snap.len() == 0 {
            proof {
                assert(self.cells@ =~= Set::<Cell>::empty());
                assert(next_generation(self.cells@) =~= self.cells@);
            }
            return ;
        }
        proof {
            assert(self.cells@.contains(snap@[0]));
            assert(!old(self).live().is_empty());
        }
        let bounds = partition_bounds(snap.len(), self.thread_amount);
        proof {
            assert forall|i: int|
                0 <= i < bounds@.len() implies (#[trigger] bounds@[i]).0 <= bounds@[i].1
                <= snap@.len() by {
                lemma_tile_upper(bounds@, snap@.len() as int, i);
            };
        }
        let ghost snap_view = snap@;
        let shared = self.cells.duplicate();
        let mut slots = stage_on_pool(&self.workers, snap, &bounds, shared);
        let ghost orig = slots@;
        let mut stages: Vec<StageBuffers> = Vec::new();
        for i in 0..slots.len()
            invariant
                slots@.len() == orig.len(),
                stages@.len() == i as int,
                forall|j: int| i as int <= j < orig.len() ==> slots@[j] == orig[j],
                forall|j: int|
                    0 <= j < i as int ==> ((#[trigger] orig[j]) matches Some(b) && stages@[j]
                        == b),
        {
            let mut taken: Option<StageBuffers> = None;
            core::mem::swap(&mut taken, &mut slots[i]);
            match taken {
                Some(buffers) => {
                    stages.push(buffers);
                },
                None => {
                    proof {
                        assert(taken == orig[i as int]);
                        assert(orig[i as int] matches Some(b));
                        assert(false);
                    }
                },
            }
        }
        apply_stages(&mut self.cells, &stages);
        self.generation = self.generation + 1;
        proof {
            assert forall|i: int|
                0 <= i < bounds@.len() implies staged_range(
                old(self).live(),
                snap_view,
                (#[trigger] bounds@[i]).0 as int,
                bounds@[i].1 as int,
                stages@[i],
            ) by {
                assert(orig[i] matches Some(b) && stages@[i] == b);
            };
            lemma_partitioned_tick(old(self).live(), snap_view, bounds@, stages@);
        }
    }

    fn insert_cells(&mut self, cells: Vec<Cell>) {
        self.cells.insert_all(&cells);
    }

    fn insert_cells_rel(&mut self, cells: Vec<Cell>, view: (i32, i32)) {
        insert_shifted(&mut self.cells, &cells, view);
    }

    fn insert_cell(&mut self, cell: Cell) {
        self.cells.insert(cell);
    }

    fn insert_cell_rel(&mut self, cell: Cell, view: (i32, i32)) {
        let shifted = crate::cell::view_shift(cell, view);
        self.cells.insert(shifted);
    }

    fn collect_cells(&self) -> (v: Vec<Cell>) {
        self.cells.to_vec()
    }

    fn count_cells(&self) -> (n: usize) {
        self.cells.len()
    }

    fn random_cell(&self) -> (c: Cell) {
        random_of(&self.cells)
    }

    fn generation(&self) -> (g: usize) {
        self.generation
    }

    fn visible_cells(&self, left: i32, right: i32, top: i32, bottom: i32) -> (v: Vec<Cell>) {
        filter_window(&self.cells, left, right, top, bottom)
    }
}

} // verus!
