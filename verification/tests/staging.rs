use gol::cell::get_neighbors;
use gol::live_set::LiveSet;
use gol::rules::count_living_neighbors;
use gol::rules::partition_bounds;
use gol::rules::stage_range;
use gol::rules::apply_stages;

fn live_set_of(cells: &[(i32, i32)]) -> LiveSet {
    let mut s = LiveSet::new();
    s.insert_all(&cells.to_vec());
    s
}

#[test]
fn neighbors_are_the_eight_surrounding_cells() {
    let n = get_neighbors(&(3, 4));
    assert_eq!(
        n,
        [(2, 3), (3, 3), (4, 3), (2, 4), (4, 4), (2, 5), (3, 5), (4, 5)]
    );
}

#[test]
fn neighbor_arithmetic_wraps_at_the_boundary() {
    let n = get_neighbors(&(i32::MAX, i32::MIN));
    assert!(n.contains(&(i32::MIN, i32::MAX)));
    assert!(n.contains(&(i32::MAX - 1, i32::MIN + 1)));
}

#[test]
fn counting_living_neighbors_reads_the_set() {
    let cells = live_set_of(&[(0, 0), (1, 0), (0, 1), (5, 5)]);
    let n = get_neighbors(&(1, 1));
    assert_eq!(count_living_neighbors(&n, &cells), 3);
    let far = get_neighbors(&(100, 100));
    assert_eq!(count_living_neighbors(&far, &cells), 0);
}

#[test]
fn staging_buffers_are_disjoint() {
    // kills need a neighbour count outside 2..=3, resurrections exactly 3,
    // so no coordinate can be staged for both
    let soup = [
        (0, 0),
        (1, 0),
        (2, 0),
        (2, 1),
        (1, 2),
        (10, 10),
        (11, 10),
        (10, 11),
        (11, 11),
        (-4, 2),
    ];
    let cells = live_set_of(&soup);
    let snap = cells.to_vec();
    let bounds = partition_bounds(snap.len(), 3);
    for &(lo, hi) in bounds.iter() {
        let buffers = stage_range(&snap, lo, hi, &cells);
        for killed in buffers.kill_list.iter() {
            assert!(!buffers.res_list.contains(killed));
        }
    }
    // and across different partitions' buffers too
    let all: Vec<_> = bounds
        .iter()
        .map(|&(lo, hi)| stage_range(&snap, lo, hi, &cells))
        .collect();
    for a in all.iter() {
        for b in all.iter() {
            for killed in a.kill_list.iter() {
                assert!(!b.res_list.contains(killed));
            }
        }
    }
}

#[test]
fn partition_bounds_tile_the_snapshot() {
    for n in [0usize, 1, 7, 8, 9, 100] {
        for w in [1usize, 2, 3, 8] {
            let bounds = partition_bounds(n, w);
            assert_eq!(bounds.len(), w);
            assert_eq!(bounds[0].0, 0);
            assert_eq!(bounds[w - 1].1, n);
            for i in 0..w {
                assert!(bounds[i].0 <= bounds[i].1);
                if i + 1 < w {
                    assert_eq!(bounds[i].1, bounds[i + 1].0);
                }
            }
        }
    }
}

#[test]
fn staged_merge_applies_deaths_then_births() {
    // a blinker: the two ends die, the two vertical neighbours are born
    let mut cells = live_set_of(&[(0, 0), (1, 0), (2, 0)]);
    let snap = cells.to_vec();
    let buffers = stage_range(&snap, 0, snap.len(), &cells);
    let mut kills = buffers.kill_list.clone();
    kills.sort();
    assert_eq!(kills, vec![(0, 0), (2, 0)]);
    let mut births = buffers.res_list.clone();
    births.sort();
    births.dedup();
    assert_eq!(births, vec![(1, -1), (1, 1)]);
    apply_stages(&mut cells, &vec![buffers]);
    let mut after = cells.to_vec();
    after.sort();
    assert_eq!(after, vec![(1, -1), (1, 0), (1, 1)]);
}
