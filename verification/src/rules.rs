//! The rules of the simulation and the staging protocol of one tick.
//!
//! `next_generation` is the mathematical statement of one step of Conway's
//! Game of Life over a set of live cells: a live cell survives on 2 or 3
//! live neighbours, a dead cell is born on exactly 3.
//!
//! A tick is computed by staging: the live set is snapshotted, the snapshot
//! is cut into contiguous partitions, each partition yields a kill list
//! (live cells that die) and a resurrection list (dead neighbours that are
//! born), and a single merge applies all lists to the live set.  The lemmas
//! of this module prove that the merged result equals `next_generation` of
//! the starting set for *every* partitioning, which is what makes the
//! sequential and the pool-backed engine agree.

use vstd::prelude::*;
use crate::cell::Cell;
use crate::cell::spec_neighbors;
use crate::cell::is_neighbor;
use crate::cell::get_neighbors;
use crate::cell::lemma_neighbor_symmetry;
use crate::live_set::LiveSet;

verus! {

/// 1 when `s` holds `c`, else 0.
pub open spec fn live_as_int(s: Set<Cell>, c: Cell) -> int {
    if s.contains(c) {
        1
    } else {
        0
    }
}

/// How many cells of `ns` are alive in `s`, for a sequence of eight
/// neighbour coordinates.
pub open spec fn live_count_of(s: Set<Cell>, ns: Seq<Cell>) -> int
    recommends
        ns.len() == 8,
{
    live_as_int(s, ns[0]) + live_as_int(s, ns[1]) + live_as_int(s, ns[2]) + live_as_int(s, ns[3])
        + live_as_int(s, ns[4]) + live_as_int(s, ns[5]) + live_as_int(s, ns[6]) + live_as_int(
        s,
        ns[7],
    )
}

/// The number of live neighbours of `c` in `s`.
pub open spec fn live_neighbor_count(s: Set<Cell>, c: Cell) -> int {
    live_count_of(s, spec_neighbors(c))
}

/// A cell with 2 or 3 live neighbours keeps (or would keep) living.
pub open spec fn cell_survives(s: Set<Cell>, c: Cell) -> bool {
    2 <= live_neighbor_count(s, c) <= 3
}

/// A dead cell with exactly 3 live neighbours is born.
pub open spec fn cell_born(s: Set<Cell>, c: Cell) -> bool {
    !s.contains(c) && live_neighbor_count(s, c) == 3
}

/// The state of the whole plane after one tick of the rules.
pub open spec fn next_generation(s: Set<Cell>) -> Set<Cell> {
    Set::new(
        |c: Cell|
            if s.contains(c) {
                cell_survives(s, c)
            } else {
                cell_born(s, c)
            },
    )
}

/// The cells of a partition that are staged for death: those whose
/// neighbour count is below 2 or above 3.
pub open spec fn kill_set(s: Set<Cell>, part: Seq<Cell>) -> Set<Cell> {
    Set::new(|c: Cell| part.contains(c) && !cell_survives(s, c))
}

/// The cells a partition stages for resurrection: dead cells with exactly
/// 3 live neighbours that are a neighbour of some cell of the partition.
pub open spec fn res_set(s: Set<Cell>, part: Seq<Cell>) -> Set<Cell> {
    Set::new(
        |c: Cell| cell_born(s, c) && exists|d: Cell| #[trigger] part.contains(d) && is_neighbor(d, c),
    )
}

/// Counts how many of the eight given cells are alive.
pub fn count_living_neighbors(neighbors: &[Cell; 8], cells: &LiveSet) -> (count: u8)
    ensures
        count as int == live_count_of(cells@, neighbors@),
{
    let mut count: u8 = 0;
    if cells.contains(&neighbors[0]) {
        count += 1;
    }
    if cells.contains(&neighbors[1]) {
        count += 1;
    }
    if cells.contains(&neighbors[2]) {
        count += 1;
    }
    if cells.contains(&neighbors[3]) {
        count += 1;
    }
    if cells.contains(&neighbors[4]) {
        count += 1;
    }
    if cells.contains(&neighbors[5]) {
        count += 1;
    }
    if cells.contains(&neighbors[6]) {
        count += 1;
    }
    if cells.contains(&neighbors[7]) {
        count += 1;
    }
    count
}

/// A cell with a positive neighbour count has at least one live neighbour.
proof fn lemma_positive_count_has_live_neighbor(s: Set<Cell>, c: Cell)
    requires
        live_neighbor_count(s, c) > 0,
    ensures
        exists|d: Cell| #[trigger] s.contains(d) && is_neighbor(c, d),
{
    let n = spec_neighbors(c);
    if s.contains(n[0]) {
        assert(s.contains(n[0]) && is_neighbor(c, n[0]));
    } else if s.contains(n[1]) {
        assert(s.contains(n[1]) && is_neighbor(c, n[1]));
    } else if s.contains(n[2]) {
        assert(s.contains(n[2]) && is_neighbor(c, n[2]));
    } else if s.contains(n[3]) {
        assert(s.contains(n[3]) && is_neighbor(c, n[3]));
    } else if s.contains(n[4]) {
        assert(s.contains(n[4]) && is_neighbor(c, n[4]));
    } else if s.contains(n[5]) {
        assert(s.contains(n[5]) && is_neighbor(c, n[5]));
    } else if s.contains(n[6]) {
        assert(s.contains(n[6]) && is_neighbor(c, n[6]));
    } else if s.contains(n[7]) {
        assert(s.contains(n[7]) && is_neighbor(c, n[7]));
    } else {
        assert(false);
    }
}

/// Staging over the whole snapshot merges to exactly the next generation:
/// removing the kill set from the live set and adding the resurrection set
/// is one tick of the rules.
pub proof fn lemma_full_staging(s: Set<Cell>, snap: Seq<Cell>)
    requires
        snap.to_set() == s,
    ensures
        s.difference(kill_set(s, snap)).union(res_set(s, snap)) == next_generation(s),
{
    let merged = s.difference(kill_set(s, snap)).union(res_set(s, snap));
    assert forall|c: Cell| merged.contains(c) == next_generation(s).contains(c) by {
        assert(snap.contains(c) == snap.to_set().contains(c));
        if !s.contains(c) && cell_born(s, c) {
            lemma_positive_count_has_live_neighbor(s, c);
            let d = choose|d: Cell| #[trigger] s.contains(d) && is_neighbor(c, d);
            lemma_neighbor_symmetry(c, d);
            assert(snap.contains(d) && is_neighbor(d, c));
            assert(res_set(s, snap).contains(c));
        }
    };
    assert(merged =~= next_generation(s));
}

/// Kill staging distributes over splitting a partition in two.
proof fn lemma_kill_set_concat(s: Set<Cell>, p1: Seq<Cell>, p2: Seq<Cell>)
    ensures
        kill_set(s, p1 + p2) == kill_set(s, p1).union(kill_set(s, p2)),
{
    assert forall|c: Cell| (p1 + p2).contains(c) == (p1.contains(c) || p2.contains(c)) by {
        if (p1 + p2).contains(c) {
            let i = choose|i: int| 0 <= i < (p1 + p2).len() && (p1 + p2)[i] == c;
            if i < p1.len() {
                assert(p1[i] == c);
            } else {
                assert(p2[i - p1.len()] == c);
            }
        }
        if p1.contains(c) {
            let i = choose|i: int| 0 <= i < p1.len() && p1[i] == c;
            assert((p1 + p2)[i] == c);
        }
        if p2.contains(c) {
            let i = choose|i: int| 0 <= i < p2.len() && p2[i] == c;
            assert((p1 + p2)[p1.len() + i] == c);
        }
    };
    assert(kill_set(s, p1 + p2) =~= kill_set(s, p1).union(kill_set(s, p2)));
}

/// Resurrection staging distributes over splitting a partition in two.
proof fn lemma_res_set_concat(s: Set<Cell>, p1: Seq<Cell>, p2: Seq<Cell>)
    ensures
        res_set(s, p1 + p2) == res_set(s, p1).union(res_set(s, p2)),
{
    assert forall|c: Cell| (p1 + p2).contains(c) == (p1.contains(c) || p2.contains(c)) by {
        if (p1 + p2).contains(c) {
            let i = choose|i: int| 0 <= i < (p1 + p2).len() && (p1 + p2)[i] == c;
            if i < p1.len() {
                assert(p1[i] == c);
            } else {
                assert(p2[i - p1.len()] == c);
            }
        }
        if p1.contains(c) {
            let i = choose|i: int| 0 <= i < p1.len() && p1[i] == c;
            assert((p1 + p2)[i] == c);
        }
        if p2.contains(c) {
            let i = choose|i: int| 0 <= i < p2.len() && p2[i] == c;
            assert((p1 + p2)[p1.len() + i] == c);
        }
    };
    assert forall|c: Cell|
        res_set(s, p1 + p2).contains(c) == (res_set(s, p1).contains(c) || res_set(s, p2).contains(
            c,
        )) by {
        if res_set(s, p1 + p2).contains(c) {
            let d = choose|d: Cell| #[trigger] (p1 + p2).contains(d) && is_neighbor(d, c);
            assert(p1.contains(d) || p2.contains(d));
        }
        if res_set(s, p1).contains(c) {
            let d = choose|d: Cell| #[trigger] p1.contains(d) && is_neighbor(d, c);
            assert((p1 + p2).contains(d) && is_neighbor(d, c));
        }
        if res_set(s, p2).contains(c) {
            let d = choose|d: Cell| #[trigger] p2.contains(d) && is_neighbor(d, c);
            assert((p1 + p2).contains(d) && is_neighbor(d, c));
        }
    };
    assert(res_set(s, p1 + p2) =~= res_set(s, p1).union(res_set(s, p2)));
}

/// No coordinate is ever staged both for death and for resurrection,
/// whatever partitions the two stagings were computed from: a kill needs a
/// neighbour count outside 2..=3, a resurrection needs exactly 3.
pub proof fn lemma_staging_disjoint(s: Set<Cell>, p1: Seq<Cell>, p2: Seq<Cell>)
    ensures
        kill_set(s, p1).intersect(res_set(s, p2)) == Set::<Cell>::empty(),
{
    assert(kill_set(s, p1).intersect(res_set(s, p2)) =~= Set::<Cell>::empty());
}

/// A cell is never one of its own neighbours.
proof fn lemma_not_own_neighbor(c: Cell)
    ensures
        !is_neighbor(c, c),
{
    assert forall|i: int| 0 <= i < spec_neighbors(c).len() implies spec_neighbors(c)[i] != c by {
        crate::cell::lemma_wrap_inverse(c.0);
        crate::cell::lemma_wrap_inverse(c.1);
    }
}

/// The eight neighbours of a cell are pairwise distinct.
proof fn lemma_neighbors_distinct(c: Cell)
    ensures
        forall|i: int, j: int|
            0 <= i < j < 8 ==> spec_neighbors(c)[i] != spec_neighbors(c)[j],
{
    crate::cell::lemma_wrap_inverse(c.0);
    crate::cell::lemma_wrap_inverse(c.1);
    assert(c.0.wrapping_sub(1) != c.0.wrapping_add(1)) by {
        if c.0.wrapping_sub(1) == c.0.wrapping_add(1) {
            assert(c.0.wrapping_sub(1).wrapping_add(1) == c.0.wrapping_add(1).wrapping_add(1));
        }
    };
    assert(c.1.wrapping_sub(1) != c.1.wrapping_add(1)) by {
        if c.1.wrapping_sub(1) == c.1.wrapping_add(1) {
            assert(c.1.wrapping_sub(1).wrapping_add(1) == c.1.wrapping_add(1).wrapping_add(1));
        }
    };
}

/// An isolated cell dies of loneliness, and nothing is born around it:
/// one tick of a single-cell population leaves the plane empty, wherever
/// the cell stood.
pub proof fn lemma_lone_cell_dies(c: Cell)
    ensures
        next_generation(set![c]) == Set::<Cell>::empty(),
{
    let s = set![c];
    lemma_not_own_neighbor(c);
    assert forall|d: Cell| !next_generation(s).contains(d) by {
        lemma_neighbors_distinct(d);
        let n = spec_neighbors(d);
        if d == c {
            assert(forall|i: int| 0 <= i < 8 ==> !s.contains(#[trigger] n[i]));
            assert(live_neighbor_count(s, d) == 0);
        } else {
            assert(live_neighbor_count(s, d) <= 1);
        }
    };
    assert(next_generation(s) =~= Set::<Cell>::empty());
}

/// The 2-by-2 block at the origin, the smallest still life.
pub open spec fn origin_block() -> Set<Cell> {
    set![(0i32, 0i32), (1i32, 0i32), (0i32, 1i32), (1i32, 1i32)]
}

/// The block is a still life: one tick of the rules leaves it unchanged,
/// and with it any number of ticks.
pub proof fn lemma_block_still_life()
    ensures
        next_generation(origin_block()) == origin_block(),
{
    let b = origin_block();
    assert(spec_neighbors((0i32, 0i32)) =~= seq![
        (-1i32, -1i32),
        (0i32, -1i32),
        (1i32, -1i32),
        (-1i32, 0i32),
        (1i32, 0i32),
        (-1i32, 1i32),
        (0i32, 1i32),
        (1i32, 1i32),
    ]);
    assert(spec_neighbors((1i32, 0i32)) =~= seq![
        (0i32, -1i32),
        (1i32, -1i32),
        (2i32, -1i32),
        (0i32, 0i32),
        (2i32, 0i32),
        (0i32, 1i32),
        (1i32, 1i32),
        (2i32, 1i32),
    ]);
    assert(spec_neighbors((0i32, 1i32)) =~= seq![
        (-1i32, 0i32),
        (0i32, 0i32),
        (1i32, 0i32),
        (-1i32, 1i32),
        (1i32, 1i32),
        (-1i32, 2i32),
        (0i32, 2i32),
        (1i32, 2i32),
    ]);
    assert(spec_neighbors((1i32, 1i32)) =~= seq![
        (0i32, 0i32),
        (1i32, 0i32),
        (2i32, 0i32),
        (0i32, 1i32),
        (2i32, 1i32),
        (0i32, 2i32),
        (1i32, 2i32),
        (2i32, 2i32),
    ]);
    assert forall|c: Cell| next_generation(b).contains(c) == b.contains(c) by {
        if b.contains(c) {
            assert(cell_survives(b, c));
        } else if next_generation(b).contains(c) {
            lemma_positive_count_has_live_neighbor(b, c);
            let d = choose|d: Cell| #[trigger] b.contains(d) && is_neighbor(c, d);
            lemma_neighbor_symmetry(c, d);
            let i = choose|i: int| 0 <= i < spec_neighbors(d).len() && spec_neighbors(d)[i] == c;
            assert(!cell_born(b, c));
            assert(false);
        }
    };
    assert(next_generation(b) =~= b);
}

/// A horizontal blinker and the upright blinker it turns into.
pub open spec fn flat_blinker() -> Set<Cell> {
    set![(0i32, -1i32), (1i32, -1i32), (2i32, -1i32)]
}

/// The vertical phase of the blinker.
pub open spec fn upright_blinker() -> Set<Cell> {
    set![(1i32, -2i32), (1i32, -1i32), (1i32, 0i32)]
}

/// The blinker oscillates with period two: one tick turns the horizontal
/// bar into the vertical one, and the next turns it back.
pub proof fn lemma_blinker_oscillates()
    ensures
        next_generation(flat_blinker()) == upright_blinker(),
        next_generation(upright_blinker()) == flat_blinker(),
{
    let flat = flat_blinker();
    let up = upright_blinker();
    assert(spec_neighbors((0i32, -1i32)) =~= seq![
        (-1i32, -2i32),
        (0i32, -2i32),
        (1i32, -2i32),
        (-1i32, -1i32),
        (1i32, -1i32),
        (-1i32, 0i32),
        (0i32, 0i32),
        (1i32, 0i32),
    ]);
    assert(spec_neighbors((1i32, -1i32)) =~= seq![
        (0i32, -2i32),
        (1i32, -2i32),
        (2i32, -2i32),
        (0i32, -1i32),
        (2i32, -1i32),
        (0i32, 0i32),
        (1i32, 0i32),
        (2i32, 0i32),
    ]);
    assert(spec_neighbors((2i32, -1i32)) =~= seq![
        (1i32, -2i32),
        (2i32, -2i32),
        (3i32, -2i32),
        (1i32, -1i32),
        (3i32, -1i32),
        (1i32, 0i32),
        (2i32, 0i32),
        (3i32, 0i32),
    ]);
    assert(spec_neighbors((1i32, -2i32)) =~= seq![
        (0i32, -3i32),
        (1i32, -3i32),
        (2i32, -3i32),
        (0i32, -2i32),
        (2i32, -2i32),
        (0i32, -1i32),
        (1i32, -1i32),
        (2i32, -1i32),
    ]);
    assert(spec_neighbors((1i32, 0i32)) =~= seq![
        (0i32, -1i32),
        (1i32, -1i32),
        (2i32, -1i32),
        (0i32, 0i32),
        (2i32, 0i32),
        (0i32, 1i32),
        (1i32, 1i32),
        (2i32, 1i32),
    ]);
    assert forall|c: Cell| next_generation(flat).contains(c) == up.contains(c) by {
        if flat.contains(c) || up.contains(c) {
        } else if next_generation(flat).contains(c) {
            lemma_positive_count_has_live_neighbor(flat, c);
            let d = choose|d: Cell| #[trigger] flat.contains(d) && is_neighbor(c, d);
            lemma_neighbor_symmetry(c, d);
            let i = choose|i: int| 0 <= i < spec_neighbors(d).len() && spec_neighbors(d)[i] == c;
            assert(!cell_born(flat, c));
            assert(false);
        }
    };
    assert(next_generation(flat) =~= up);
    assert forall|c: Cell| next_generation(up).contains(c) == flat.contains(c) by {
        if up.contains(c) || flat.contains(c) {
        } else if next_generation(up).contains(c) {
            lemma_positive_count_has_live_neighbor(up, c);
            let d = choose|d: Cell| #[trigger] up.contains(d) && is_neighbor(c, d);
            lemma_neighbor_symmetry(c, d);
            let i = choose|i: int| 0 <= i < spec_neighbors(d).len() && spec_neighbors(d)[i] == c;
            assert(!cell_born(up, c));
            assert(false);
        }
    };
    assert(next_generation(up) =~= flat);
}

/// The standard five-cell glider, in its starting phase.
pub open spec fn glider_phase0() -> Set<Cell> {
    set![(0i32, 2i32), (1i32, 0i32), (1i32, 2i32), (2i32, 1i32), (2i32, 2i32)]
}

/// The glider one tick in.
pub open spec fn glider_phase1() -> Set<Cell> {
    set![(0i32, 1i32), (1i32, 2i32), (1i32, 3i32), (2i32, 1i32), (2i32, 2i32)]
}

/// The glider two ticks in.
pub open spec fn glider_phase2() -> Set<Cell> {
    set![(0i32, 2i32), (1i32, 3i32), (2i32, 1i32), (2i32, 2i32), (2i32, 3i32)]
}

/// The glider three ticks in.
pub open spec fn glider_phase3() -> Set<Cell> {
    set![(1i32, 1i32), (1i32, 3i32), (2i32, 2i32), (2i32, 3i32), (3i32, 2i32)]
}

/// The glider four ticks in: the starting phase shifted by (1, 1).
pub open spec fn glider_phase4() -> Set<Cell> {
    set![(1i32, 3i32), (2i32, 1i32), (2i32, 3i32), (3i32, 2i32), (3i32, 3i32)]
}

/// One tick takes the glider's phase 0 to phase 1.
proof fn lemma_glider_step0()
    ensures
        next_generation(glider_phase0()) == glider_phase1(),
{
    assert(spec_neighbors((0i32, 2i32)) =~= seq![
        (-1i32, 1i32),
        (0i32, 1i32),
        (1i32, 1i32),
        (-1i32, 2i32),
        (1i32, 2i32),
        (-1i32, 3i32),
        (0i32, 3i32),
        (1i32, 3i32),
    ]);
    assert(spec_neighbors((1i32, 0i32)) =~= seq![
        (0i32, -1i32),
        (1i32, -1i32),
        (2i32, -1i32),
        (0i32, 0i32),
        (2i32, 0i32),
        (0i32, 1i32),
        (1i32, 1i32),
        (2i32, 1i32),
    ]);
    assert(spec_neighbors((1i32, 2i32)) =~= seq![
        (0i32, 1i32),
        (1i32, 1i32),
        (2i32, 1i32),
        (0i32, 2i32),
        (2i32, 2i32),
        (0i32, 3i32),
        (1i32, 3i32),
        (2i32, 3i32),
    ]);
    assert(spec_neighbors((2i32, 1i32)) =~= seq![
        (1i32, 0i32),
        (2i32, 0i32),
        (3i32, 0i32),
        (1i32, 1i32),
        (3i32, 1i32),
        (1i32, 2i32),
        (2i32, 2i32),
        (3i32, 2i32),
    ]);
    assert(spec_neighbors((2i32, 2i32)) =~= seq![
        (1i32, 1i32),
        (2i32, 1i32),
        (3i32, 1i32),
        (1i32, 2i32),
        (3i32, 2i32),
        (1i32, 3i32),
        (2i32, 3i32),
        (3i32, 3i32),
    ]);
    assert forall|c: Cell| next_generation(glider_phase0()).contains(c) == glider_phase1().contains(c) by {
        if glider_phase0().contains(c) || glider_phase1().contains(c) {
        } else if next_generation(glider_phase0()).contains(c) {
            lemma_positive_count_has_live_neighbor(glider_phase0(), c);
            let d = choose|d: Cell| #[trigger] glider_phase0().contains(d) && is_neighbor(c, d);
            lemma_neighbor_symmetry(c, d);
            let i = choose|i: int| 0 <= i < spec_neighbors(d).len() && spec_neighbors(d)[i] == c;
            assert(!cell_born(glider_phase0(), c));
            assert(false);
        }
    };
    assert(next_generation(glider_phase0()) =~= glider_phase1());
}

/// One tick takes the glider's phase 1 to phase 2.
proof fn lemma_glider_step1()
    ensures
        next_generation(glider_phase1()) == glider_phase2(),
{
    assert(spec_neighbors((0i32, 1i32)) =~= seq![
        (-1i32, 0i32),
        (0i32, 0i32),
        (1i32, 0i32),
        (-1i32, 1i32),
        (1i32, 1i32),
        (-1i32, 2i32),
        (0i32, 2i32),
        (1i32, 2i32),
    ]);
    assert(spec_neighbors((1i32, 2i32)) =~= seq![
        (0i32, 1i32),
        (1i32, 1i32),
        (2i32, 1i32),
        (0i32, 2i32),
        (2i32, 2i32),
        (0i32, 3i32),
        (1i32, 3i32),
        (2i32, 3i32),
    ]);
    assert(spec_neighbors((1i32, 3i32)) =~= seq![
        (0i32, 2i32),
        (1i32, 2i32),
        (2i32, 2i32),
        (0i32, 3i32),
        (2i32, 3i32),
        (0i32, 4i32),
        (1i32, 4i32),
        (2i32, 4i32),
    ]);
    assert(spec_neighbors((2i32, 1i32)) =~= seq![
        (1i32, 0i32),
        (2i32, 0i32),
        (3i32, 0i32),
        (1i32, 1i32),
        (3i32, 1i32),
        (1i32, 2i32),
        (2i32, 2i32),
        (3i32, 2i32),
    ]);
    assert(spec_neighbors((2i32, 2i32)) =~= seq![
        (1i32, 1i32),
        (2i32, 1i32),
        (3i32, 1i32),
        (1i32, 2i32),
        (3i32, 2i32),
        (1i32, 3i32),
        (2i32, 3i32),
        (3i32, 3i32),
    ]);
    assert forall|c: Cell| next_generation(glider_phase1()).contains(c) == glider_phase2().contains(c) by {
        if glider_phase1().contains(c) || glider_phase2().contains(c) {
        } else if next_generation(glider_phase1()).contains(c) {
            lemma_positive_count_has_live_neighbor(glider_phase1(), c);
            let d = choose|d: Cell| #[trigger] glider_phase1().contains(d) && is_neighbor(c, d);
            lemma_neighbor_symmetry(c, d);
            let i = choose|i: int| 0 <= i < spec_neighbors(d).len() && spec_neighbors(d)[i] == c;
            assert(!cell_born(glider_phase1(), c));
            assert(false);
        }
    };
    assert(next_generation(glider_phase1()) =~= glider_phase2());
}

/// One tick takes the glider's phase 2 to phase 3.
proof fn lemma_glider_step2()
    ensures
        next_generation(glider_phase2()) == glider_phase3(),
{
    assert(spec_neighbors((0i32, 2i32)) =~= seq![
        (-1i32, 1i32),
        (0i32, 1i32),
        (1i32, 1i32),
        (-1i32, 2i32),
        (1i32, 2i32),
        (-1i32, 3i32),
        (0i32, 3i32),
        (1i32, 3i32),
    ]);
    assert(spec_neighbors((1i32, 3i32)) =~= seq![
        (0i32, 2i32),
        (1i32, 2i32),
        (2i32, 2i32),
        (0i32, 3i32),
        (2i32, 3i32),
        (0i32, 4i32),
        (1i32, 4i32),
        (2i32, 4i32),
    ]);
    assert(spec_neighbors((2i32, 1i32)) =~= seq![
        (1i32, 0i32),
        (2i32, 0i32),
        (3i32, 0i32),
        (1i32, 1i32),
        (3i32, 1i32),
        (1i32, 2i32),
        (2i32, 2i32),
        (3i32, 2i32),
    ]);
    assert(spec_neighbors((2i32, 2i32)) =~= seq![
        (1i32, 1i32),
        (2i32, 1i32),
        (3i32, 1i32),
        (1i32, 2i32),
        (3i32, 2i32),
        (1i32, 3i32),
        (2i32, 3i32),
        (3i32, 3i32),
    ]);
    assert(spec_neighbors((2i32, 3i32)) =~= seq![
        (1i32, 2i32),
        (2i32, 2i32),
        (3i32, 2i32),
        (1i32, 3i32),
        (3i32, 3i32),
        (1i32, 4i32),
        (2i32, 4i32),
        (3i32, 4i32),
    ]);
    assert forall|c: Cell| next_generation(glider_phase2()).contains(c) == glider_phase3().contains(c) by {
        if glider_phase2().contains(c) || glider_phase3().contains(c) {
        } else if next_generation(glider_phase2()).contains(c) {
            lemma_positive_count_has_live_neighbor(glider_phase2(), c);
            let d = choose|d: Cell| #[trigger] glider_phase2().contains(d) && is_neighbor(c, d);
            lemma_neighbor_symmetry(c, d);
            let i = choose|i: int| 0 <= i < spec_neighbors(d).len() && spec_neighbors(d)[i] == c;
            assert(!cell_born(glider_phase2(), c));
            assert(false);
        }
    };
    assert(next_generation(glider_phase2()) =~= glider_phase3());
}

/// One tick takes the glider's phase 3 to phase 4.
proof fn lemma_glider_step3()
    ensures
        next_generation(glider_phase3()) == glider_phase4(),
{
    assert(spec_neighbors((1i32, 1i32)) =~= seq![
        (0i32, 0i32),
        (1i32, 0i32),
        (2i32, 0i32),
        (0i32, 1i32),
        (2i32, 1i32),
        (0i32, 2i32),
        (1i32, 2i32),
        (2i32, 2i32),
    ]);
    assert(spec_neighbors((1i32, 3i32)) =~= seq![
        (0i32, 2i32),
        (1i32, 2i32),
        (2i32, 2i32),
        (0i32, 3i32),
        (2i32, 3i32),
        (0i32, 4i32),
        (1i32, 4i32),
        (2i32, 4i32),
    ]);
    assert(spec_neighbors((2i32, 2i32)) =~= seq![
        (1i32, 1i32),
        (2i32, 1i32),
        (3i32, 1i32),
        (1i32, 2i32),
        (3i32, 2i32),
        (1i32, 3i32),
        (2i32, 3i32),
        (3i32, 3i32),
    ]);
    assert(spec_neighbors((2i32, 3i32)) =~= seq![
        (1i32, 2i32),
        (2i32, 2i32),
        (3i32, 2i32),
        (1i32, 3i32),
        (3i32, 3i32),
        (1i32, 4i32),
        (2i32, 4i32),
        (3i32, 4i32),
    ]);
    assert(spec_neighbors((3i32, 2i32)) =~= seq![
        (2i32, 1i32),
        (3i32, 1i32),
        (4i32, 1i32),
        (2i32, 2i32),
        (4i32, 2i32),
        (2i32, 3i32),
        (3i32, 3i32),
        (4i32, 3i32),
    ]);
    assert forall|c: Cell| next_generation(glider_phase3()).contains(c) == glider_phase4().contains(c) by {
        if glider_phase3().contains(c) || glider_phase4().contains(c) {
        } else if next_generation(glider_phase3()).contains(c) {
            lemma_positive_count_has_live_neighbor(glider_phase3(), c);
            let d = choose|d: Cell| #[trigger] glider_phase3().contains(d) && is_neighbor(c, d);
            lemma_neighbor_symmetry(c, d);
            let i = choose|i: int| 0 <= i < spec_neighbors(d).len() && spec_neighbors(d)[i] == c;
            assert(!cell_born(glider_phase3(), c));
            assert(false);
        }
    };
    assert(next_generation(glider_phase3()) =~= glider_phase4());
}

/// The glider returns to its own shape shifted by (1, 1) after four
/// ticks: each tick of the rules takes one phase to the next.
pub proof fn lemma_glider_translates()
    ensures
        next_generation(glider_phase0()) == glider_phase1(),
        next_generation(glider_phase1()) == glider_phase2(),
        next_generation(glider_phase2()) == glider_phase3(),
        next_generation(glider_phase3()) == glider_phase4(),
{
    lemma_glider_step0();
    lemma_glider_step1();
    lemma_glider_step2();
    lemma_glider_step3();
}

/// The cells that one cell `d` proposes for resurrection: its dead
/// neighbours with exactly 3 live neighbours of their own.
spec fn res_cell(s: Set<Cell>, d: Cell) -> Set<Cell> {
    Set::new(|n: Cell| cell_born(s, n) && is_neighbor(d, n))
}

/// `res_cell` restricted to the first `j` of the eight neighbours.
spec fn res_cell_prefix(s: Set<Cell>, d: Cell, j: int) -> Set<Cell> {
    Set::new(
        |n: Cell|
            cell_born(s, n) && exists|jj: int| 0 <= jj < j && #[trigger] spec_neighbors(d)[jj] == n,
    )
}

/// Taking one more neighbour into account adds at most that neighbour.
proof fn lemma_res_cell_prefix_step(s: Set<Cell>, d: Cell, j: int)
    requires
        0 <= j < 8,
    ensures
        res_cell_prefix(s, d, j + 1) == if cell_born(s, spec_neighbors(d)[j]) {
            res_cell_prefix(s, d, j).insert(spec_neighbors(d)[j])
        } else {
            res_cell_prefix(s, d, j)
        },
{
    let x = spec_neighbors(d)[j];
    if cell_born(s, x) {
        assert forall|n: Cell|
            res_cell_prefix(s, d, j + 1).contains(n) == res_cell_prefix(s, d, j).insert(x).contains(
                n,
            ) by {
            if res_cell_prefix(s, d, j + 1).contains(n) {
                let jj = choose|jj: int| 0 <= jj < j + 1 && #[trigger] spec_neighbors(d)[jj] == n;
                if jj < j {
                    assert(res_cell_prefix(s, d, j).contains(n));
                }
            }
        };
        assert(res_cell_prefix(s, d, j + 1) =~= res_cell_prefix(s, d, j).insert(x));
    } else {
        assert forall|n: Cell|
            res_cell_prefix(s, d, j + 1).contains(n) == res_cell_prefix(s, d, j).contains(n) by {
            if res_cell_prefix(s, d, j + 1).contains(n) {
                let jj = choose|jj: int| 0 <= jj < j + 1 && #[trigger] spec_neighbors(d)[jj] == n;
                if jj < j {
                    assert(res_cell_prefix(s, d, j).contains(n));
                }
            }
        };
        assert(res_cell_prefix(s, d, j + 1) =~= res_cell_prefix(s, d, j));
    }
}

/// All eight neighbours taken into account give exactly `res_cell`.
proof fn lemma_res_cell_prefix_full(s: Set<Cell>, d: Cell)
    ensures
        res_cell_prefix(s, d, 8) == res_cell(s, d),
{
    assert forall|n: Cell| res_cell_prefix(s, d, 8).contains(n) == res_cell(s, d).contains(n) by {
        if res_cell(s, d).contains(n) {
            let jj = choose|jj: int|
                0 <= jj < spec_neighbors(d).len() && spec_neighbors(d)[jj] == n;
            assert(0 <= jj < 8 && spec_neighbors(d)[jj] == n);
        }
    };
    assert(res_cell_prefix(s, d, 8) =~= res_cell(s, d));
}

/// Extending a partition by one cell extends its kill set by that cell,
/// when the cell does not survive.
proof fn lemma_kill_set_step(s: Set<Cell>, snap: Seq<Cell>, lo: int, i: int)
    requires
        0 <= lo <= i < snap.len(),
    ensures
        kill_set(s, snap.subrange(lo, i + 1)) == if !cell_survives(s, snap[i]) {
            kill_set(s, snap.subrange(lo, i)).insert(snap[i])
        } else {
            kill_set(s, snap.subrange(lo, i))
        },
{
    broadcast use vstd::seq_lib::lemma_seq_contains_after_push;

    let p0 = snap.subrange(lo, i);
    let p1 = snap.subrange(lo, i + 1);
    let x = snap[i];
    assert(p1 =~= p0.push(x));
    assert forall|c: Cell| p1.contains(c) == (p0.contains(c) || c == x) by {
        assert(p0.push(x).contains(c) <==> x == c || p0.contains(c));
    };
    if !cell_survives(s, x) {
        assert(kill_set(s, p1) =~= kill_set(s, p0).insert(x));
    } else {
        assert(kill_set(s, p1) =~= kill_set(s, p0));
    }
}

/// Extending a partition by one cell extends its resurrection set by what
/// that cell proposes.
proof fn lemma_res_set_step(s: Set<Cell>, snap: Seq<Cell>, lo: int, i: int)
    requires
        0 <= lo <= i < snap.len(),
    ensures
        res_set(s, snap.subrange(lo, i + 1)) == res_set(s, snap.subrange(lo, i)).union(
            res_cell(s, snap[i]),
        ),
{
    broadcast use vstd::seq_lib::lemma_seq_contains_after_push;

    let p0 = snap.subrange(lo, i);
    let p1 = snap.subrange(lo, i + 1);
    let x = snap[i];
    assert(p1 =~= p0.push(x));
    assert forall|c: Cell| p1.contains(c) == (p0.contains(c) || c == x) by {
        assert(p0.push(x).contains(c) <==> x == c || p0.contains(c));
    };
    assert forall|n: Cell|
        res_set(s, p1).contains(n) == (res_set(s, p0).contains(n) || res_cell(s, x).contains(
            n,
        )) by {
        if res_set(s, p1).contains(n) {
            let d = choose|d: Cell| #[trigger] p1.contains(d) && is_neighbor(d, n);
            if p0.contains(d) {
                assert(res_set(s, p0).contains(n));
            } else {
                assert(d == x);
            }
        }
        if res_set(s, p0).contains(n) {
            let d = choose|d: Cell| #[trigger] p0.contains(d) && is_neighbor(d, n);
            assert(p1.contains(d) && is_neighbor(d, n));
        }
        if res_cell(s, x).contains(n) {
            assert(p1.contains(x) && is_neighbor(x, n));
        }
    };
    assert(res_set(s, p1) =~= res_set(s, p0).union(res_cell(s, x)));
}

/// One partition's staging buffers: the cells staged for death and the
/// cells staged for resurrection.  Created at the start of a tick and
/// consumed by its merge.
pub struct StageBuffers {
    /// Live cells of the partition whose neighbour count fell outside 2..=3.
    pub kill_list: Vec<Cell>,
    /// Dead neighbours of the partition's cells with exactly 3 live
    /// neighbours of their own.
    pub res_list: Vec<Cell>,
}

/// What staging one partition `snap[lo..hi]` of the snapshot yields.
pub open spec fn staged_range(
    s: Set<Cell>,
    snap: Seq<Cell>,
    lo: int,
    hi: int,
    b: StageBuffers,
) -> bool {
    &&& b.kill_list@.to_set() == kill_set(s, snap.subrange(lo, hi))
    &&& b.res_list@.to_set() == res_set(s, snap.subrange(lo, hi))
}

/// Stages one partition `snap[lo..hi]` of the snapshot: collects the
/// partition's cells that die and the dead neighbours that are born,
/// reading liveness against the unchanged pre-tick live set `cells`.
#[verifier::loop_isolation(false)]
pub fn stage_range(snap: &Vec<Cell>, lo: usize, hi: usize, cells: &LiveSet) -> (out: StageBuffers)
    requires
        lo <= hi <= snap@.len(),
    ensures
        staged_range(cells@, snap@, lo as int, hi as int, out),
{
    let ghost s = cells@;
    let mut kill_list: Vec<Cell> = Vec::new();
    let mut res_list: Vec<Cell> = Vec::new();
    proof {
        assert(kill_list@.to_set() =~= kill_set(s, snap@.subrange(lo as int, lo as int)));
        assert(res_list@.to_set() =~= res_set(s, snap@.subrange(lo as int, lo as int)));
    }
    for i in lo..hi
        invariant
            kill_list@.to_set() == kill_set(s, snap@.subrange(lo as int, i as int)),
            res_list@.to_set() == res_set(s, snap@.subrange(lo as int, i as int)),
    {
        broadcast use vstd::seq_lib::lemma_seq_contains_after_push;

        let cell = snap[i];
        let neighbors: [Cell; 8] = get_neighbors(&cell);
        let neighbor_count = count_living_neighbors(&neighbors, cells);
        if neighbor_count < 2 || neighbor_count > 3 {
            kill_list.push(cell);
        }
        proof {
            lemma_kill_set_step(s, snap@, lo as int, i as int);
            if !cell_survives(s, cell) {
                assert(kill_list@.to_set() =~= kill_set(s, snap@.subrange(lo as int, i + 1)));
            }
        }

        let ghost res0 = res_set(s, snap@.subrange(lo as int, i as int));
        proof {
            assert(res_list@.to_set() =~= res0.union(res_cell_prefix(s, cell, 0)));
        }
        for j in 0..8usize
            invariant
                res_list@.to_set() == res0.union(res_cell_prefix(s, cell, j as int)),
        {
            broadcast use vstd::seq_lib::lemma_seq_contains_after_push;

            let neighbor = neighbors[j];
            let ghost rl0 = res_list@;
            if !cells.contains(&neighbor) {
                let neighbor_neighbors: [Cell; 8] = get_neighbors(&neighbor);
                let count2 = count_living_neighbors(&neighbor_neighbors, cells);
                if count2 == 3 {
                    res_list.push(neighbor);
                }
            }
            proof {
                lemma_res_cell_prefix_step(s, cell, j as int);
                assert(neighbor == spec_neighbors(cell)[j as int]);
                if cell_born(s, neighbor) {
                    assert(res_list@ == rl0.push(neighbor));
                    assert(res_list@.to_set() =~= rl0.to_set().insert(neighbor));
                    assert(res_cell_prefix(s, cell, j + 1) == res_cell_prefix(
                        s,
                        cell,
                        j as int,
                    ).insert(neighbor));
                    assert(res_list@.to_set() =~= res0.union(res_cell_prefix(s, cell, j + 1)));
                } else {
                    assert(res_list@ == rl0);
                    assert(res_list@.to_set() =~= res0.union(res_cell_prefix(s, cell, j + 1)));
                }
            }
        }
        proof {
            lemma_res_cell_prefix_full(s, cell);
            lemma_res_set_step(s, snap@, lo as int, i as int);
            assert(res_list@.to_set() =~= res_set(s, snap@.subrange(lo as int, i + 1)));
        }
    }
    StageBuffers { kill_list, res_list }
}

/// All cells staged for death across a sequence of partition buffers.
pub open spec fn union_kills(stages: Seq<StageBuffers>) -> Set<Cell>
    decreases stages.len(),
{
    if stages.len() == 0 {
        Set::<Cell>::empty()
    } else {
        union_kills(stages.drop_last()).union(stages.last().kill_list@.to_set())
    }
}

/// All cells staged for resurrection across a sequence of partition buffers.
pub open spec fn union_res(stages: Seq<StageBuffers>) -> Set<Cell>
    decreases stages.len(),
{
    if stages.len() == 0 {
        Set::<Cell>::empty()
    } else {
        union_res(stages.drop_last()).union(stages.last().res_list@.to_set())
    }
}

/// One more buffer adds its kill list to the union.
proof fn lemma_union_kills_step(stages: Seq<StageBuffers>, i: int)
    requires
        0 <= i < stages.len(),
    ensures
        union_kills(stages.take(i + 1)) == union_kills(stages.take(i)).union(
            stages[i].kill_list@.to_set(),
        ),
{
    assert(stages.take(i + 1).drop_last() =~= stages.take(i));
    assert(stages.take(i + 1).last() == stages[i]);
}

/// One more buffer adds its resurrection list to the union.
proof fn lemma_union_res_step(stages: Seq<StageBuffers>, i: int)
    requires
        0 <= i < stages.len(),
    ensures
        union_res(stages.take(i + 1)) == union_res(stages.take(i)).union(
            stages[i].res_list@.to_set(),
        ),
{
    assert(stages.take(i + 1).drop_last() =~= stages.take(i));
    assert(stages.take(i + 1).last() == stages[i]);
}

/// Taking one more element of a vector into a set inserts that element.
pub proof fn lemma_take_succ_to_set(q: Seq<Cell>, j: int)
    requires
        0 <= j < q.len(),
    ensures
        q.take(j + 1).to_set() == q.take(j).to_set().insert(q[j]),
{
    broadcast use vstd::seq_lib::lemma_seq_contains_after_push;

    let t0 = q.take(j);
    let x = q[j];
    assert(q.take(j + 1) =~= t0.push(x));
    assert forall|d: Cell| q.take(j + 1).contains(d) == (t0.contains(d) || d == x) by {
        assert(t0.push(x).contains(d) <==> x == d || t0.contains(d));
    };
    assert(q.take(j + 1).to_set() =~= t0.to_set().insert(x));
}

/// The merge phase of a tick: removes every staged death from the live
/// set, then inserts every staged resurrection.  Single-threaded; applies
/// the buffers of all partitions.
#[verifier::loop_isolation(false)]
pub fn apply_stages(cells: &mut LiveSet, stages: &Vec<StageBuffers>)
    ensures
        final(cells)@ == old(cells)@.difference(union_kills(stages@)).union(union_res(stages@)),
{
    let ghost s0 = cells@;
    proof {
        assert(stages@.take(0int) =~= Seq::<StageBuffers>::empty());
        assert(cells@ =~= s0.difference(union_kills(stages@.take(0int))));
    }
    for i in 0..stages.len()
        invariant
            cells@ == s0.difference(union_kills(stages@.take(i as int))),
    {
        let kill_list = &stages[i].kill_list;
        let ghost base = cells@;
        proof {
            assert(kill_list@.take(0int) =~= Seq::<Cell>::empty());
            assert(cells@ =~= base.difference(kill_list@.take(0int).to_set()));
        }
        for j in 0..kill_list.len()
            invariant
                cells@ == base.difference(kill_list@.take(j as int).to_set()),
        {
            cells.remove(kill_list[j]);
            proof {
                lemma_take_succ_to_set(kill_list@, j as int);
                assert(cells@ =~= base.difference(kill_list@.take(j + 1).to_set()));
            }
        }
        proof {
            assert(kill_list@.take(kill_list@.len() as int) =~= kill_list@);
            lemma_union_kills_step(stages@, i as int);
            assert(cells@ =~= s0.difference(union_kills(stages@.take(i + 1))));
        }
    }
    proof {
        assert(stages@.take(stages@.len() as int) =~= stages@);
    }
    let ghost killed = cells@;
    proof {
        assert(stages@.take(0int) =~= Seq::<StageBuffers>::empty());
        assert(cells@ =~= killed.union(union_res(stages@.take(0int))));
    }
    for i in 0..stages.len()
        invariant
            cells@ == killed.union(union_res(stages@.take(i as int))),
    {
        let res_list = &stages[i].res_list;
        let ghost base = cells@;
        proof {
            assert(res_list@.take(0int) =~= Seq::<Cell>::empty());
            assert(cells@ =~= base.union(res_list@.take(0int).to_set()));
        }
        for j in 0..res_list.len()
            invariant
                cells@ == base.union(res_list@.take(j as int).to_set()),
        {
            cells.insert(res_list[j]);
            proof {
                lemma_take_succ_to_set(res_list@, j as int);
                assert(cells@ =~= base.union(res_list@.take(j + 1).to_set()));
            }
        }
        proof {
            assert(res_list@.take(res_list@.len() as int) =~= res_list@);
            lemma_union_res_step(stages@, i as int);
            assert(cells@ =~= killed.union(union_res(stages@.take(i + 1))));
        }
    }
    proof {
        assert(stages@.take(stages@.len() as int) =~= stages@);
    }
}

/// `bounds` cuts `0..n` into contiguous pieces that cover it exactly:
/// the first piece starts at 0, the last ends at `n`, and each piece
/// begins where the one before it ended.
pub open spec fn tiles(bounds: Seq<(usize, usize)>, n: int) -> bool {
    &&& bounds.len() >= 1
    &&& bounds[0].0 == 0
    &&& bounds[bounds.len() - 1].1 == n
    &&& forall|i: int| 0 <= i < bounds.len() ==> (#[trigger] bounds[i]).0 <= bounds[i].1
    &&& forall|i: int| 0 <= i < bounds.len() - 1 ==> (#[trigger] bounds[i]).1 == bounds[i + 1].0
}

/// In a tiling of `0..n` every piece ends at or before `n`.
pub proof fn lemma_tile_upper(bounds: Seq<(usize, usize)>, n: int, i: int)
    requires
        tiles(bounds, n),
        0 <= i < bounds.len(),
    ensures
        bounds[i].1 <= n,
    decreases bounds.len() - i,
{
    if i < bounds.len() - 1 {
        lemma_tile_upper(bounds, n, i + 1);
    }
}

/// Splits `0..n` into `w` contiguous, near-equal pieces: each of size
/// `n / w`, with the remainder folded into the last piece.
pub fn partition_bounds(n: usize, w: usize) -> (bounds: Vec<(usize, usize)>)
    requires
        w >= 1,
    ensures
        bounds@.len() == w as int,
        tiles(bounds@, n as int),
        forall|i: int|
            0 <= i < w as int - 1 ==> (#[trigger] bounds@[i]).0 == i * (n as int / w as int)
                && bounds@[i].1 == (i + 1) * (n as int / w as int),
        bounds@[w as int - 1].0 == (w as int - 1) * (n as int / w as int),
{
    let d = n / w;
    proof {
        vstd::arithmetic::div_mod::lemma_fundamental_div_mod(n as int, w as int);
        vstd::arithmetic::div_mod::lemma_mod_bound(n as int, w as int);
        assert((w as int) * (d as int) <= n as int);
    }
    let mut bounds: Vec<(usize, usize)> = Vec::new();
    for i in 0..w - 1
        invariant
            w >= 1,
            d == n as int / w as int,
            (w as int) * (d as int) <= n as int,
            bounds@.len() == i as int,
            forall|k: int|
                0 <= k < i as int ==> (#[trigger] bounds@[k]).0 == k * (d as int) && bounds@[k].1
                    == (k + 1) * (d as int),
    {
        proof {
            assert((i as int + 1) * (d as int) <= (w as int) * (d as int)) by (nonlinear_arith)
                requires
                    i as int + 1 <= w as int,
                    d as int >= 0,
            ;
            assert((i as int) * (d as int) <= (i as int + 1) * (d as int)) by (nonlinear_arith)
                requires
                    d as int >= 0,
            ;
        }
        let lo = i * d;
        let hi = (i + 1) * d;
        bounds.push((lo, hi));
    }
    proof {
        assert(((w - 1) as int) * (d as int) <= (w as int) * (d as int)) by (nonlinear_arith)
            requires
                d as int >= 0,
                w as int >= 1,
        ;
    }
    let last_lo = (w - 1) * d;
    bounds.push((last_lo, n));
    proof {
        if w > 1 {
            assert(bounds@[0int].0 == 0 * (d as int));
        }
        assert(bounds@[0int].0 == 0);
        assert forall|k: int| 0 <= k < bounds@.len() implies (#[trigger] bounds@[k]).0
            <= bounds@[k].1 by {
            if k < w as int - 1 {
                assert((k * (d as int)) <= (k + 1) * (d as int)) by (nonlinear_arith)
                    requires
                        d as int >= 0,
                ;
            }
        };
        assert forall|k: int| 0 <= k < bounds@.len() - 1 implies (#[trigger] bounds@[k]).1
            == bounds@[k + 1].0 by {};
    }
    bounds
}

/// The union of the stagings of the first `j` pieces of a tiling equals
/// the staging of the snapshot's prefix those pieces cover.
proof fn lemma_union_staged_prefix(
    s: Set<Cell>,
    snap: Seq<Cell>,
    bounds: Seq<(usize, usize)>,
    stages: Seq<StageBuffers>,
    j: int,
)
    requires
        tiles(bounds, snap.len() as int),
        stages.len() == bounds.len(),
        forall|i: int|
            0 <= i < bounds.len() ==> staged_range(
                s,
                snap,
                (#[trigger] bounds[i]).0 as int,
                bounds[i].1 as int,
                stages[i],
            ),
        0 <= j <= stages.len(),
    ensures
        union_kills(stages.take(j)) == kill_set(
            s,
            snap.take(if j == 0 { 0int } else { bounds[j - 1].1 as int }),
        ),
        union_res(stages.take(j)) == res_set(
            s,
            snap.take(if j == 0 { 0int } else { bounds[j - 1].1 as int }),
        ),
    decreases j,
{
    if j == 0 {
        assert(stages.take(0int) =~= Seq::<StageBuffers>::empty());
        assert(snap.take(0int) =~= Seq::<Cell>::empty());
        assert(kill_set(s, snap.take(0int)) =~= Set::<Cell>::empty());
        assert forall|c: Cell| !res_set(s, snap.take(0int)).contains(c) by {
            if res_set(s, snap.take(0int)).contains(c) {
                let d = choose|d: Cell| #[trigger] snap.take(0int).contains(d) && is_neighbor(d, c);
                let idx = choose|idx: int|
                    0 <= idx < snap.take(0int).len() && snap.take(0int)[idx] == d;
            }
        };
        assert(res_set(s, snap.take(0int)) =~= Set::<Cell>::empty());
    } else {
        lemma_union_staged_prefix(s, snap, bounds, stages, j - 1);
        lemma_union_kills_step(stages, j - 1);
        lemma_union_res_step(stages, j - 1);
        lemma_tile_upper(bounds, snap.len() as int, j - 1);
        let lo = bounds[j - 1].0 as int;
        let hi = bounds[j - 1].1 as int;
        let prev = if j - 1 == 0 {
            0int
        } else {
            bounds[j - 2].1 as int
        };
        assert(prev == lo);
        assert(snap.take(hi) =~= snap.take(lo) + snap.subrange(lo, hi));
        lemma_kill_set_concat(s, snap.take(lo), snap.subrange(lo, hi));
        lemma_res_set_concat(s, snap.take(lo), snap.subrange(lo, hi));
    }
}

/// The heart of the engine equivalence: for *any* tiling of the snapshot
/// into partitions — one per worker, however many workers there are —
/// merging all partition buffers turns the live set into exactly the next
/// generation of the rules.  The result does not depend on the tiling.
pub proof fn lemma_partitioned_tick(
    s: Set<Cell>,
    snap: Seq<Cell>,
    bounds: Seq<(usize, usize)>,
    stages: Seq<StageBuffers>,
)
    requires
        snap.to_set() == s,
        tiles(bounds, snap.len() as int),
        stages.len() == bounds.len(),
        forall|i: int|
            0 <= i < bounds.len() ==> staged_range(
                s,
                snap,
                (#[trigger] bounds[i]).0 as int,
                bounds[i].1 as int,
                stages[i],
            ),
    ensures
        s.difference(union_kills(stages)).union(union_res(stages)) == next_generation(s),
{
    lemma_union_staged_prefix(s, snap, bounds, stages, stages.len() as int);
    assert(stages.take(stages.len() as int) =~= stages);
    assert(snap.take(snap.len() as int) =~= snap);
    lemma_full_staging(s, snap);
}

/// The sequential engine and the partitioned engine agree: staging the
/// whole snapshot as one piece and staging it as any tiling of pieces
/// merge to the same live set — the next generation.
pub proof fn lemma_engine_equivalence(
    s: Set<Cell>,
    snap: Seq<Cell>,
    bounds: Seq<(usize, usize)>,
    stages: Seq<StageBuffers>,
    whole: StageBuffers,
)
    requires
        snap.to_set() == s,
        tiles(bounds, snap.len() as int),
        stages.len() == bounds.len(),
        forall|i: int|
            0 <= i < bounds.len() ==> staged_range(
                s,
                snap,
                (#[trigger] bounds[i]).0 as int,
                bounds[i].1 as int,
                stages[i],
            ),
        staged_range(s, snap, 0, snap.len() as int, whole),
    ensures
        s.difference(union_kills(stages)).union(union_res(stages)) == s.difference(
            union_kills(seq![whole]),
        ).union(union_res(seq![whole])),
{
    lemma_partitioned_tick(s, snap, bounds, stages);
    let sb = seq![whole];
    let wbounds: Seq<(usize, usize)> = seq![(0usize, snap.len() as usize)];
    assert(snap.len() <= usize::MAX as int);
    assert(tiles(wbounds, snap.len() as int));
    assert(snap.subrange(0, snap.len() as int) =~= snap);
    assert forall|i: int|
        0 <= i < wbounds.len() implies staged_range(
        s,
        snap,
        (#[trigger] wbounds[i]).0 as int,
        wbounds[i].1 as int,
        sb[i],
    ) by {};
    lemma_partitioned_tick(s, snap, wbounds, sb);
}

} // verus!
