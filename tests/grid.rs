use beat_blobs::grid::Grid;

#[test]
fn grid_reports_its_dimensions() {
    let g = Grid::new(9, 10, 40, 30);
    assert_eq!(g.width(), 9);
    assert_eq!(g.height(), 10);
    assert_eq!(g.cell_width(), 40);
    assert_eq!(g.cell_height(), 30);
}

#[test]
fn cell_rect_is_affine_in_the_tile() {
    let g = Grid::new(9, 10, 40, 30);
    assert_eq!(g.cell_rect(0, 0), (0, 0, 40, 30));
    assert_eq!(g.cell_rect(2, 3), (80, 90, 120, 120));
    assert_eq!(g.cell_rect(8, 9), (320, 270, 360, 300));
}

#[test]
fn tile_at_floors_and_rejects_outside() {
    let g = Grid::new(9, 10, 40, 40);
    assert_eq!(g.tile_at((0, 0)), Some((0, 0)));
    assert_eq!(g.tile_at((39, 39)), Some((0, 0)));
    assert_eq!(g.tile_at((40, 79)), Some((1, 1)));
    assert_eq!(g.tile_at((359, 399)), Some((8, 9)));
    assert_eq!(g.tile_at((360, 10)), None);
    assert_eq!(g.tile_at((10, 400)), None);
    assert_eq!(g.tile_at((-1, 10)), None);
    assert_eq!(g.tile_at((10, -40)), None);
}

#[test]
fn tile_at_negative_pixel_maps_below_zero() {
    // A pixel just left of the grid floors to tile -1, which is rejected; one cell further
    // left is still rejected.
    let g = Grid::new(1, 1, 40, 40);
    assert_eq!(g.tile_at((-40, 0)), None);
    assert_eq!(g.tile_at((-41, 0)), None);
    assert_eq!(g.tile_at((i32::MIN, i32::MIN)), None);
}

#[test]
fn tile_at_cell_origin_round_trips() {
    let g = Grid::new(9, 10, 40, 30);
    for x in 0..9 {
        for y in 0..10 {
            let r = g.cell_rect(x, y);
            assert_eq!(g.tile_at((r.0, r.1)), Some((x, y)));
        }
    }
}

#[test]
fn set_occupied_toggles_membership() {
    let mut g = Grid::new(9, 10, 40, 40);
    assert!(!g.occupied(&(2, 3)));
    g.set_occupied((2, 3), true);
    assert!(g.occupied(&(2, 3)));
    assert!(!g.occupied(&(3, 2)));
    g.set_occupied((2, 3), true);
    assert!(g.occupied(&(2, 3)));
    g.set_occupied((2, 3), false);
    assert!(!g.occupied(&(2, 3)));
    g.set_occupied((2, 3), false);
    assert!(!g.occupied(&(2, 3)));
}

#[test]
fn set_occupied_accepts_tiles_outside_the_grid() {
    let mut g = Grid::new(2, 2, 10, 10);
    g.set_occupied((-5, 7), true);
    assert!(g.occupied(&(-5, 7)));
    assert!(!g.passable((-5, 7)));
    assert!(g.passable((1, 1)));
}

#[test]
fn cell_rect_outside_the_grid_is_still_affine() {
    let g = Grid::new(9, 10, 40, 40);
    assert_eq!(g.cell_rect(-1, 12), (-40, 480, 0, 520));
    assert_eq!(g.cell_rect(100, -3), (4000, -120, 4040, -80));
}
