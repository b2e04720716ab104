use beat_blobs::components::{BlobGoal, BlobSpawn, PadTeam, TeamKeys};
use beat_blobs::game::{Game, BEAT_TIME};
use beat_blobs::grid::Grid;
use beat_blobs::systems::{move_blobs, spawn_blobs};
use beat_blobs::world::World;

fn no_keys() -> TeamKeys {
    TeamKeys { blue: false, red: false, green: false, yellow: false }
}

fn beat(g: &Grid, w: &mut World) {
    move_blobs(w);
    assert!(spawn_blobs(g, w).is_ok());
}

fn blue_level() -> (Grid, World) {
    let g = Grid::new(9, 10, 40, 40);
    let mut w = World::new();
    w.spawners.push(BlobSpawn { team: PadTeam::Blue, tile: (1, 9), interval: 2, timer: 2 });
    w.goals.push(BlobGoal { team: PadTeam::Blue, tile: (1, 0) });
    (g, w)
}

#[test]
fn blue_spawner_makes_a_blob_on_the_second_beat() {
    let (g, mut w) = blue_level();
    beat(&g, &mut w);
    assert!(w.blobs.is_empty());
    beat(&g, &mut w);
    assert_eq!(w.blobs.len(), 1);
    assert_eq!(w.blobs[0].team, PadTeam::Blue);
    assert_eq!(w.blobs[0].tile, (1, 9));
    assert_eq!(w.blobs[0].path.len(), 10);
}

#[test]
fn blue_blob_walks_two_steps_in_two_beats() {
    let (g, mut w) = blue_level();
    for _ in 0..4 {
        beat(&g, &mut w);
    }
    // The first blob has moved twice; the second has just been made.
    assert_eq!(w.blobs.len(), 2);
    assert_eq!(w.blobs[0].tile, (1, 7));
    assert_eq!(w.blobs[1].tile, (1, 9));
}

#[test]
fn blue_blob_is_gone_by_beat_eighteen() {
    let (g, mut w) = blue_level();
    for _ in 0..(9 * 2) {
        beat(&g, &mut w);
    }
    // Blobs made on beats 2, 4, 6 and 8 have reached the goal; those of 10 to 18 remain.
    assert_eq!(w.blobs.len(), 5);
    assert_eq!(w.blobs[0].path_index, 8);
    assert!(w.blobs.iter().all(|b| b.path_index < b.path.len()));
}

#[test]
fn first_blob_removed_exactly_ten_beats_after_it_was_made() {
    let (g, mut w) = blue_level();
    for _ in 0..11 {
        beat(&g, &mut w);
    }
    assert_eq!(w.blobs[0].tile, (1, 0));
    assert_eq!(w.blobs[0].path_index, 9);
    beat(&g, &mut w);
    assert_eq!(w.blobs[0].path_index, 8);
}

#[test]
fn new_game_has_the_standard_level() {
    let game = Game::new();
    assert_eq!(game.grid().width(), 9);
    assert_eq!(game.grid().height(), 10);
    assert_eq!(game.world().pads.len(), 4);
    assert_eq!(game.world().spawners.len(), 4);
    assert_eq!(game.world().goals.len(), 4);
    assert_eq!(game.world().spawners[0].tile, (1, 9));
    assert_eq!(game.world().goals[3].tile, (7, 0));
    assert_eq!(game.hovered_tile(), None);
    assert_eq!(game.beat_phase(), (0, BEAT_TIME));
}

#[test]
fn update_runs_one_beat_per_period() {
    let mut game = Game::new();
    assert!(game.update(2 * BEAT_TIME, (-1, -1), false, &no_keys()).is_ok());
    assert_eq!(game.world().blobs.len(), 1);
    assert_eq!(game.world().blobs[0].team, PadTeam::Blue);
    assert_eq!(game.beat_phase(), (0, BEAT_TIME));
    assert!(game.update(BEAT_TIME / 2, (-1, -1), false, &no_keys()).is_ok());
    assert_eq!(game.beat_phase(), (BEAT_TIME / 2, BEAT_TIME));
    assert_eq!(game.world().blobs[0].tile, (1, 9));
}

#[test]
fn clicking_a_tile_builds_a_wall() {
    let mut game = Game::new();
    assert!(game.update(0, (85, 170), false, &no_keys()).is_ok());
    assert_eq!(game.hovered_tile(), Some((2, 4)));
    assert!(!game.grid().occupied(&(2, 4)));
    assert!(game.update(0, (85, 170), true, &no_keys()).is_ok());
    assert!(game.grid().occupied(&(2, 4)));
    assert_eq!(game.world().walls, vec![(2, 4)]);
    assert!(game.update(0, (85, 170), true, &no_keys()).is_ok());
    assert_eq!(game.world().walls, vec![(2, 4)]);
    assert!(game.update(0, (-5, 170), true, &no_keys()).is_ok());
    assert_eq!(game.hovered_tile(), None);
}

#[test]
fn pad_key_captures_blob_under_the_pad() {
    let mut game = Game::new();
    // The blue blob is made on beat 2 at (1, 9) and reaches the pad tile (1, 1) eight beats later.
    assert!(game.update(10 * BEAT_TIME, (-1, -1), false, &no_keys()).is_ok());
    assert!(game.world().blobs.iter().any(|b| b.tile == (1, 1)));
    let keys = TeamKeys { blue: true, red: false, green: false, yellow: false };
    assert!(game.update(0, (-1, -1), false, &keys).is_ok());
    assert!(!game.world().blobs.iter().any(|b| b.tile == (1, 1)));
    assert!(game.world().triggers.is_empty());
}
