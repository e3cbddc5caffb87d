use gol::Grid;
use gol::Point;

fn at(x: i64, y: i64) -> Point {
    Point { x, y }
}

#[test]
fn determinism_same_seed_same_evolution() {
    let points = vec![at(0, 0), at(0, 1), at(1, 0), at(5, 5), at(5, 6), at(5, 7)];
    let mut g1 = Grid::with_points(&points);
    let mut g2 = Grid::with_points(&points);

    for _ in 0..3 {
        g1.tick();
        g2.tick();
    }

    assert_eq!(g1.generation(), g2.generation());
    assert_eq!(g1.num_alive(), g2.num_alive());
    for x in -3..10 {
        for y in -3..10 {
            let p = at(x, y);
            assert_eq!(g1.contains_point(&p), g2.contains_point(&p));
            assert_eq!(g1.age_of_point(&p), g2.age_of_point(&p));
        }
    }
}

#[test]
fn underpopulation_kills_isolated_and_paired_cells() {
    let mut lone = Grid::with_points(&vec![at(3, 3)]);
    lone.tick();
    assert_eq!(0, lone.num_alive());

    let mut pair = Grid::with_points(&vec![at(0, 0), at(0, 1)]);
    pair.tick();
    assert_eq!(0, pair.num_alive());
}

#[test]
fn overpopulation_kills_crowded_center_of_a_block_of_nine() {
    let mut points = Vec::new();
    for x in 0..3 {
        for y in 0..3 {
            points.push(at(x, y));
        }
    }
    let mut g = Grid::with_points(&points);
    g.tick();

    // the center has eight alive neighbors and must die
    assert!(!g.contains_point(&at(1, 1)));
    // the corners keep exactly three alive neighbors and survive
    assert!(g.contains_point(&at(0, 0)));
    assert!(g.contains_point(&at(2, 2)));
}

#[test]
fn birth_needs_exactly_three_alive_neighbors() {
    // two alive neighbors are not enough
    let mut two = Grid::with_points(&vec![at(-1, 0), at(1, 0)]);
    two.tick();
    assert!(!two.contains_point(&at(0, 0)));

    // three alive neighbors give birth
    let mut three = Grid::with_points(&vec![at(0, 1), at(-1, 0), at(1, 0)]);
    three.tick();
    assert!(three.contains_point(&at(0, 0)));
    assert_eq!(Some(1), three.birth_of_point(&at(0, 0)));

    // four alive neighbors are too many
    let mut four = Grid::with_points(&vec![at(0, 1), at(0, -1), at(-1, 0), at(1, 0)]);
    four.tick();
    assert!(!four.contains_point(&at(0, 0)));
}

#[test]
fn survival_preserves_age_lineage() {
    let points = vec![at(5, 1), at(5, 2), at(6, 2), at(5, 3)];
    let mut g = Grid::with_points(&points);
    g.tick();

    assert_eq!(1, g.generation());
    assert_eq!(Some(0), g.birth_of_point(&at(5, 2)));
    assert_eq!(Some(1), g.age_of_point(&at(5, 2)));
}

#[test]
fn generation_counts_ticks_on_an_empty_grid() {
    let mut g = Grid::empty();
    assert_eq!(0, g.generation());
    for _ in 0..1000 {
        g.tick();
    }
    assert_eq!(1000, g.generation());
    assert_eq!(0, g.num_alive());
}

#[test]
fn add_point_keeps_the_age_an_alive_cell_already_had() {
    // a block is a still life: every cell keeps birth stamp 0
    let point = at(0, 0);
    let points = vec![point, at(1, 0), at(0, 1), at(1, 1)];
    let mut g = Grid::with_points(&points);
    g.tick();
    g.tick();
    assert_eq!(Some(2), g.age_of_point(&point));

    g.add_point(point);

    assert_eq!(Some(2), g.age_of_point(&point));
}

#[test]
fn remove_point_is_idempotent_on_dead_cells() {
    let mut g = Grid::with_points(&vec![at(4, 4)]);
    let dead = at(9, 9);

    assert_eq!(None, g.age_of_point(&dead));
    g.remove_point(&dead);
    assert_eq!(None, g.age_of_point(&dead));
    g.remove_point(&dead);
    assert_eq!(None, g.age_of_point(&dead));
    assert_eq!(1, g.num_alive());
}

#[test]
fn age_round_trip_counts_ticks_survived() {
    let mut g = Grid::empty();
    g.tick();
    g.tick();
    assert_eq!(2, g.generation());

    // add a block at generation 2: each cell reports age 0 at once
    let block = vec![at(0, 0), at(1, 0), at(0, 1), at(1, 1)];
    for p in &block {
        g.add_point(*p);
        assert_eq!(Some(0), g.age_of_point(p));
    }

    // the block survives any number of ticks; ages follow the counter
    g.tick();
    g.tick();
    g.tick();
    for p in &block {
        assert_eq!(Some(2), g.birth_of_point(p));
        assert_eq!(Some(3), g.age_of_point(p));
    }
}

#[test]
fn blinker_oscillates_with_period_two() {
    let mut g = Grid::with_points(&vec![at(0, -1), at(0, 0), at(0, 1)]);

    g.tick();
    assert_eq!(3, g.num_alive());
    assert!(g.contains_point(&at(-1, 0)));
    assert!(g.contains_point(&at(0, 0)));
    assert!(g.contains_point(&at(1, 0)));
    assert_eq!(Some(1), g.birth_of_point(&at(-1, 0)));
    assert_eq!(Some(0), g.birth_of_point(&at(0, 0)));

    g.tick();
    assert_eq!(3, g.num_alive());
    assert!(g.contains_point(&at(0, -1)));
    assert!(g.contains_point(&at(0, 0)));
    assert!(g.contains_point(&at(0, 1)));
}

#[test]
fn with_points_collapses_duplicate_points() {
    let p = at(7, -7);
    let g = Grid::with_points(&vec![p, p, p]);
    assert_eq!(1, g.num_alive());
    assert_eq!(Some(0), g.age_of_point(&p));
}

#[test]
fn random_scatters_inside_the_rectangle_at_generation_zero() {
    let top_left = at(0, 0);
    let bottom_right = at(10, 10);
    let g = Grid::random(top_left, bottom_right);

    assert_eq!(0, g.generation());
    assert!(g.num_alive() <= 80);
    // the sampling target is positive, so at least one cell came alive
    assert!(g.num_alive() >= 1);

    // every alive cell lies inside the rectangle with birth stamp 0, so
    // scanning the rectangle must find them all
    let mut seen: usize = 0;
    for x in 0..10 {
        for y in 0..10 {
            let p = at(x, y);
            if g.contains_point(&p) {
                seen += 1;
                assert_eq!(Some(0), g.age_of_point(&p));
                assert_eq!(Some(0), g.birth_of_point(&p));
            }
        }
    }
    assert_eq!(seen, g.num_alive());
}

#[test]
fn point_plus_and_minus_work_componentwise() {
    let a = at(3, -4);
    let b = at(-1, 10);
    assert_eq!(at(2, 6), a.plus(b));
    assert_eq!(at(4, -14), a.minus(b));
}
