use beat_blobs::grid::Grid;
use beat_blobs::pathfind::find_path;

fn adjacent(a: (i32, i32), b: (i32, i32)) -> bool {
    (a.0 - b.0).abs() + (a.1 - b.1).abs() == 1
}

fn check_route(g: &Grid, p: &[(i32, i32)], start: (i32, i32), goal: (i32, i32)) {
    assert_eq!(p[0], start);
    assert_eq!(*p.last().unwrap(), goal);
    for w in p.windows(2) {
        assert!(adjacent(w[0], w[1]));
    }
    for t in &p[1..] {
        assert!(g.passable(*t));
    }
}

#[test]
fn open_grid_route_is_manhattan_long() {
    let g = Grid::new(9, 10, 40, 40);
    let p = find_path((1, 9), (1, 0), &g).unwrap();
    assert_eq!(p.len(), 10);
    check_route(&g, &p, (1, 9), (1, 0));
    let p = find_path((0, 0), (8, 9), &g).unwrap();
    assert_eq!(p.len(), 8 + 9 + 1);
    check_route(&g, &p, (0, 0), (8, 9));
    let p = find_path((7, 2), (3, 6), &g).unwrap();
    assert_eq!(p.len(), 4 + 4 + 1);
}

#[test]
fn straight_route_runs_along_the_column() {
    let g = Grid::new(9, 10, 40, 40);
    let p = find_path((1, 9), (1, 0), &g).unwrap();
    let expected: Vec<(i32, i32)> = (0..10).rev().map(|y| (1, y)).collect();
    assert_eq!(p, expected);
}

#[test]
fn start_equal_to_goal_gives_single_tile() {
    let g = Grid::new(3, 3, 10, 10);
    assert_eq!(find_path((1, 1), (1, 1), &g), Some(vec![(1, 1)]));
}

#[test]
fn start_equal_to_goal_on_occupied_start() {
    let mut g = Grid::new(3, 3, 10, 10);
    g.set_occupied((1, 1), true);
    assert_eq!(g.find_path((1, 1), (1, 1)), Some(vec![(1, 1)]));
}

#[test]
fn wall_across_the_grid_gives_no_path() {
    let mut g = Grid::new(5, 5, 10, 10);
    for x in 0..5 {
        g.set_occupied((x, 2), true);
    }
    assert_eq!(find_path((2, 4), (2, 0), &g), None);
    assert_eq!(g.find_path((0, 0), (4, 4)), None);
}

#[test]
fn route_goes_around_an_obstacle() {
    let mut g = Grid::new(5, 5, 10, 10);
    for x in 0..4 {
        g.set_occupied((x, 2), true);
    }
    let p = find_path((0, 4), (0, 0), &g).unwrap();
    check_route(&g, &p, (0, 4), (0, 0));
    for t in &p {
        assert!(!g.occupied(t));
    }
    assert!(p.contains(&(4, 2)));
}

#[test]
fn occupied_start_is_allowed() {
    let mut g = Grid::new(4, 1, 10, 10);
    g.set_occupied((0, 0), true);
    let p = find_path((0, 0), (3, 0), &g).unwrap();
    assert_eq!(p, vec![(0, 0), (1, 0), (2, 0), (3, 0)]);
}

#[test]
fn occupied_goal_gives_no_path() {
    let mut g = Grid::new(4, 4, 10, 10);
    g.set_occupied((3, 3), true);
    assert_eq!(find_path((0, 0), (3, 3), &g), None);
}

#[test]
fn endpoints_outside_the_grid_give_no_path() {
    let g = Grid::new(4, 4, 10, 10);
    assert_eq!(find_path((-1, 0), (3, 3), &g), None);
    assert_eq!(find_path((0, 0), (4, 0), &g), None);
    assert_eq!(find_path((9, 9), (9, 9), &g), None);
}

#[test]
fn enclosed_goal_gives_no_path() {
    let mut g = Grid::new(5, 5, 10, 10);
    for t in [(1, 2), (3, 2), (2, 1), (2, 3)] {
        g.set_occupied(t, true);
    }
    assert_eq!(find_path((0, 0), (2, 2), &g), None);
    assert_eq!(find_path((2, 2), (0, 0), &g), None);
}

#[test]
fn empty_grid_has_no_path() {
    let g = Grid::new(0, 0, 10, 10);
    assert_eq!(find_path((0, 0), (0, 0), &g), None);
}

#[test]
fn detour_around_a_two_tile_wall() {
    let mut g = Grid::new(3, 3, 10, 10);
    g.set_occupied((1, 0), true);
    g.set_occupied((1, 1), true);
    assert_eq!(
        find_path((0, 0), (2, 0), &g),
        Some(vec![(0, 0), (0, 1), (0, 2), (1, 2), (2, 2), (2, 1), (2, 0)])
    );
}

#[test]
fn greedy_route_follows_the_heuristic_around_obstacles() {
    // The frontier is ordered by distance to the goal alone, so the search heads left along the
    // bottom row and around, though the way through (4, 1) is two tiles shorter.
    let mut g = Grid::new(6, 3, 10, 10);
    for t in [(1, 1), (2, 1), (3, 1), (5, 0), (5, 1)] {
        g.set_occupied(t, true);
    }
    let p = find_path((3, 2), (2, 0), &g).unwrap();
    assert_eq!(p, vec![(3, 2), (2, 2), (1, 2), (0, 2), (0, 1), (0, 0), (1, 0), (2, 0)]);
    check_route(&g, &p, (3, 2), (2, 0));
}

#[test]
fn route_never_repeats_a_tile() {
    let mut g = Grid::new(7, 7, 10, 10);
    for t in [(1, 1), (2, 1), (3, 1), (4, 1), (5, 1), (5, 2), (5, 3), (5, 4), (1, 3), (2, 3), (3, 3)] {
        g.set_occupied(t, true);
    }
    let p = find_path((3, 2), (0, 6), &g).unwrap();
    check_route(&g, &p, (3, 2), (0, 6));
    for i in 0..p.len() {
        for j in i + 1..p.len() {
            assert_ne!(p[i], p[j]);
        }
    }
}
