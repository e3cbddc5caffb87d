use gol::neighbors;
use gol::Grid;
use gol::Point;

#[test]
fn neighbors_returns_an_array_of_the_surrounding_points() {
    let p = Point { x: 1, y: 5 };
    let expected_result: Vec<Point> = vec![
        Point { x: 0, y: 6 },
        Point { x: 1, y: 6 },
        Point { x: 2, y: 6 },
        Point { x: 0, y: 5 },
        Point { x: 2, y: 5 },
        Point { x: 0, y: 4 },
        Point { x: 1, y: 4 },
        Point { x: 2, y: 4 },
    ];

    assert_eq!(expected_result, neighbors(p));
}

#[test]
fn contains_point_initialized_with() {
    let points = vec![Point { x: 5, y: 2 }];
    let g = Grid::with_points(&points);

    assert!(g.contains_point(&points[0]));
    assert_eq!(1, g.num_alive());
}

#[test]
fn tick_will_kill_living_cells_with_less_than_two_neighbors() {
    let points = vec![
        Point { x: 0, y: 0 },
        Point { x: 5, y: 2 },
        Point { x: 5, y: 3 },
    ];
    let mut g = Grid::with_points(&points);
    g.tick();

    assert_eq!(0, g.num_alive());
}

#[test]
fn tick_will_kill_living_cells_with_more_than_three_neighbors() {
    let points = vec![
        Point { x: 0, y: 0 },
        Point { x: 2, y: 0 },
        Point { x: 1, y: 1 },
        Point { x: 1, y: 2 },
        Point { x: 0, y: 1 },
    ];
    let mut g = Grid::with_points(&points);
    g.add_point(Point { x: 0, y: 0 });

    g.tick();
    assert!(!g.contains_point(&Point { x: 1, y: 1 }));
}

#[test]
fn tick_will_make_a_cell_alive_if_it_has_3_neighbors() {
    let points = vec![
        Point { x: 0, y: 1 },
        Point { x: -1, y: 0 },
        Point { x: 1, y: 0 },
    ];
    let mut g = Grid::with_points(&points);

    g.tick();

    let point = Point { x: 0, y: 0 };
    assert!(g.contains_point(&point));
}

#[test]
fn tick_will_preserve_cells_with_2_neighbors() {
    let points = vec![
        Point { x: 5, y: 1 },
        Point { x: 5, y: 2 },
        Point { x: 5, y: 3 },
    ];
    let mut g = Grid::with_points(&points);
    g.tick();

    assert!(g.contains_point(&Point { x: 5, y: 2 }));
}

#[test]
fn tick_will_preserve_cells_with_3_neighbors() {
    let points = vec![
        Point { x: 5, y: 1 },
        Point { x: 5, y: 2 },
        Point { x: 6, y: 2 },
        Point { x: 5, y: 3 },
    ];
    let mut g = Grid::with_points(&points);
    g.tick();

    let point = Point { x: 5, y: 2 };
    match g.birth_of_point(&point) {
        Some(generation) => assert_eq!(0, generation),
        None => panic!("Point not found"),
    }
}

#[test]
fn tick_advances_the_generation() {
    let mut g = Grid::empty();
    assert_eq!(0, g.generation());
    g.tick();
    assert_eq!(1, g.generation());
}

#[test]
fn tick_new_cells_are_stored_with_their_birth_generation() {
    let points = vec![
        Point { x: 0, y: 1 },
        Point { x: -1, y: 0 },
        Point { x: 1, y: 0 },
    ];
    let mut g = Grid::with_points(&points);

    match g.birth_of_point(&points[0]) {
        Some(generation) => assert_eq!(0, generation),
        None => panic!("Point not found"),
    }

    g.tick();

    let point = Point { x: 0, y: 0 };
    match g.birth_of_point(&point) {
        Some(generation) => assert_eq!(1, generation),
        None => panic!("Point not found"),
    }
}

#[test]
fn age_of_point_returns_none_if_point_is_dead() {
    let g = Grid::empty();
    assert_eq!(None, g.age_of_point(&Point { x: 0, y: 0 }));
}

#[test]
fn age_of_point_returns_some_age_if_point_is_alive() {
    let points = vec![Point { x: 0, y: 1 }];
    let g = Grid::with_points(&points);
    assert_eq!(Some(0), g.age_of_point(&points[0]));
}

#[test]
fn add_point_creates_new_point_with_the_current_generation() {
    let point = Point { x: 0, y: 0 };
    let mut g = Grid::empty();

    g.tick();
    g.add_point(point);

    assert_eq!(Some(0), g.age_of_point(&point));
}

#[test]
fn add_point_does_not_overwrite_an_existing_point() {
    // A still-life block carries (0, 0) through one tick, so the grid
    // reaches generation 1 with the point's birth stamp still 0.
    let point = Point { x: 0, y: 0 };
    let points = vec![
        point,
        Point { x: 1, y: 0 },
        Point { x: 0, y: 1 },
        Point { x: 1, y: 1 },
    ];
    let mut g = Grid::with_points(&points);
    g.tick();

    g.add_point(point);

    assert_eq!(Some(1), g.age_of_point(&point));
}

#[test]
fn remove_point_removes_a_point() {
    let point = Point { x: 0, y: 0 };
    let mut g = Grid::with_points(&vec![point]);

    g.remove_point(&point);

    assert_eq!(None, g.age_of_point(&point));
}
