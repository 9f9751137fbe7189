use gol::state::State;
use gol::state::state;
use gol::single::single_state;
use gol::parallel::parallel_state;

fn sorted(mut v: Vec<(i32, i32)>) -> Vec<(i32, i32)> {
    v.sort();
    v
}

#[test]
fn sequential_and_parallel_agree_on_random_soup() {
    let soup: Vec<(i32, i32)> = vec![
        (0, 0),
        (1, 0),
        (4, 2),
        (4, 3),
        (5, 2),
        (5, 3),
        (-3, -1),
        (-3, 0),
        (-3, 1),
        (7, -2),
        (8, -2),
        (8, -1),
        (9, 0),
        (2, 2),
        (3, 3),
        (2, 3),
    ];
    for workers in 1..=5usize {
        let mut seq_engine = single_state();
        seq_engine.insert_cells(soup.clone());
        let mut par_engine = parallel_state(workers);
        par_engine.insert_cells(soup.clone());
        for _ in 0..6 {
            seq_engine.tick();
            par_engine.tick();
            assert_eq!(
                sorted(seq_engine.collect_cells()),
                sorted(par_engine.collect_cells())
            );
            assert_eq!(seq_engine.generation(), par_engine.generation());
        }
    }
}

#[test]
fn idempotent_insertion_keeps_count() {
    let mut engine = single_state();
    engine.insert_cell((3, 4));
    assert_eq!(engine.count_cells(), 1);
    engine.insert_cell((3, 4));
    assert_eq!(engine.count_cells(), 1);
    engine.insert_cells(vec![(3, 4), (3, 4), (5, 6)]);
    assert_eq!(engine.count_cells(), 2);
    let mut par = parallel_state(2);
    par.insert_cells(vec![(0, 0), (0, 0)]);
    par.insert_cell((0, 0));
    assert_eq!(par.count_cells(), 1);
}

#[test]
fn generation_counts_only_populated_ticks() {
    let mut engine = single_state();
    assert_eq!(engine.generation(), 0);
    engine.tick();
    assert_eq!(engine.generation(), 0);
    engine.insert_cells(vec![(0, 0), (1, 0), (0, 1), (1, 1)]);
    engine.tick();
    assert_eq!(engine.generation(), 1);
    engine.tick();
    assert_eq!(engine.generation(), 2);
}

#[test]
fn generation_counts_only_populated_ticks_parallel() {
    let mut engine = parallel_state(3);
    assert_eq!(engine.generation(), 0);
    engine.tick();
    assert_eq!(engine.generation(), 0);
    engine.insert_cells(vec![(0, 0), (1, 0), (0, 1), (1, 1)]);
    engine.tick();
    engine.tick();
    assert_eq!(engine.generation(), 2);
}

#[test]
fn block_is_a_still_life() {
    let block = vec![(0, 0), (1, 0), (0, 1), (1, 1)];
    let mut engine = single_state();
    engine.insert_cells(block.clone());
    for _ in 0..7 {
        engine.tick();
        assert_eq!(sorted(engine.collect_cells()), sorted(block.clone()));
    }
    let mut par = parallel_state(4);
    par.insert_cells(block.clone());
    for _ in 0..7 {
        par.tick();
        assert_eq!(sorted(par.collect_cells()), sorted(block.clone()));
    }
}

#[test]
fn blinker_oscillates_with_period_two() {
    let blinker = vec![(0, -1), (1, -1), (2, -1)];
    let upright = vec![(1, -2), (1, -1), (1, 0)];
    let mut engine = single_state();
    engine.insert_cells(blinker.clone());
    engine.tick();
    assert_eq!(sorted(engine.collect_cells()), sorted(upright.clone()));
    engine.tick();
    assert_eq!(sorted(engine.collect_cells()), sorted(blinker.clone()));
    let mut par = parallel_state(2);
    par.insert_cells(blinker.clone());
    par.tick();
    assert_eq!(sorted(par.collect_cells()), sorted(upright));
    par.tick();
    assert_eq!(sorted(par.collect_cells()), sorted(blinker));
}

#[test]
fn glider_translates_by_one_one_in_four_ticks() {
    let glider = vec![(1, 0), (2, 1), (0, 2), (1, 2), (2, 2)];
    let shifted: Vec<(i32, i32)> = glider.iter().map(|&(x, y)| (x + 1, y + 1)).collect();
    let mut engine = single_state();
    engine.insert_cells(glider.clone());
    for _ in 0..4 {
        engine.tick();
    }
    assert_eq!(sorted(engine.collect_cells()), sorted(shifted.clone()));
    let mut par = parallel_state(3);
    par.insert_cells(glider);
    for _ in 0..4 {
        par.tick();
    }
    assert_eq!(sorted(par.collect_cells()), sorted(shifted));
}

#[test]
fn rule_thresholds_govern_death_and_birth() {
    // the centre of a plus dies of its four neighbours, each arm lives on
    // with three, and every corner is born with exactly three
    let plus = vec![(0, 0), (1, 0), (-1, 0), (0, 1), (0, -1)];
    let ring = vec![
        (-1, -1),
        (-1, 0),
        (-1, 1),
        (0, -1),
        (0, 1),
        (1, -1),
        (1, 0),
        (1, 1),
    ];
    let mut engine = single_state();
    engine.insert_cells(plus.clone());
    engine.tick();
    assert_eq!(sorted(engine.collect_cells()), ring);
    let mut par = parallel_state(2);
    par.insert_cells(plus);
    par.tick();
    assert_eq!(sorted(par.collect_cells()), ring);
}

#[test]
fn lone_cell_goes_extinct_and_freezes() {
    let mut engine = single_state();
    engine.insert_cell((10, -7));
    engine.tick();
    assert_eq!(engine.count_cells(), 0);
    assert_eq!(engine.generation(), 1);
    engine.tick();
    engine.tick();
    assert_eq!(engine.count_cells(), 0);
    assert_eq!(engine.generation(), 1);
}

#[test]
fn random_cell_is_always_live() {
    let cells = vec![(2, 3), (-5, 8), (0, 0)];
    let mut engine = parallel_state(2);
    engine.insert_cells(cells.clone());
    for _ in 0..20 {
        let c = engine.random_cell();
        assert!(cells.contains(&c));
    }
    let mut lone = single_state();
    lone.insert_cell((42, -42));
    assert_eq!(lone.random_cell(), (42, -42));
}

#[test]
fn collect_cells_copies_without_duplicates() {
    let mut engine = single_state();
    engine.insert_cells(vec![(1, 1), (2, 2), (1, 1), (3, 3)]);
    let mut collected = engine.collect_cells();
    collected.sort();
    assert_eq!(collected, vec![(1, 1), (2, 2), (3, 3)]);
}

#[test]
fn relative_insertion_applies_view_offset() {
    // the view's second component shifts x, its first shifts y downward
    let mut engine = single_state();
    engine.insert_cells_rel(vec![(0, 0), (1, 2)], (5, 7));
    let collected = sorted(engine.collect_cells());
    assert_eq!(collected, vec![(7, -5), (8, -3)]);
    let mut par = parallel_state(2);
    par.insert_cell_rel((0, 0), (-3, 4));
    assert_eq!(par.collect_cells(), vec![(4, 3)]);
}

#[test]
fn visible_cells_filters_strictly_inside_window() {
    let mut engine = single_state();
    engine.insert_cells(vec![(0, 0), (5, 5), (-5, -5), (10, 0), (0, 10), (3, -3)]);
    let mut visible = engine.visible_cells(-4, 6, 4, -4);
    visible.sort();
    assert_eq!(visible, vec![(0, 0), (3, -3)]);
}

#[test]
fn engine_chooser_picks_a_working_engine() {
    let mut chosen = state(Some(2));
    chosen.insert_cells(vec![(0, -1), (1, -1), (2, -1)]);
    chosen.tick();
    assert_eq!(sorted(chosen.collect_cells()), vec![(1, -2), (1, -1), (1, 0)]);
    assert_eq!(chosen.generation(), 1);
    let mut fallback = state(None);
    fallback.insert_cell((0, 0));
    fallback.tick();
    assert_eq!(fallback.count_cells(), 0);
}

#[test]
fn parallel_single_worker_matches_sequential() {
    let soup = vec![(0, 0), (1, 1), (2, 2), (1, 0), (0, 2), (2, 0)];
    let mut seq_engine = single_state();
    let mut par = parallel_state(1);
    seq_engine.insert_cells(soup.clone());
    par.insert_cells(soup);
    for _ in 0..5 {
        seq_engine.tick();
        par.tick();
        assert_eq!(sorted(seq_engine.collect_cells()), sorted(par.collect_cells()));
    }
}
