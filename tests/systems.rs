use beat_blobs::components::{Blob, BlobGoal, BlobSpawn, Pad, PadTeam, TeamKeys};
use beat_blobs::grid::Grid;
use beat_blobs::systems::{
    move_blobs, pad_update, spawn_blobs, trigger_blobs, SpawnError, PAD_PULSE_TIME,
};
use beat_blobs::world::World;

fn blob_on(team: PadTeam, path: Vec<(i32, i32)>, index: usize) -> Blob {
    Blob { team, tile: path[index], path, path_index: index }
}

fn no_keys() -> TeamKeys {
    TeamKeys { blue: false, red: false, green: false, yellow: false }
}

#[test]
fn move_advances_and_removes_at_path_end() {
    let mut w = World::new();
    w.blobs.push(blob_on(PadTeam::Blue, vec![(0, 2), (0, 1), (0, 0)], 0));
    move_blobs(&mut w);
    assert_eq!(w.blobs.len(), 1);
    assert_eq!(w.blobs[0].path_index, 1);
    assert_eq!(w.blobs[0].tile, (0, 1));
    move_blobs(&mut w);
    assert_eq!(w.blobs[0].tile, (0, 0));
    assert_eq!(w.blobs[0].path_index, 2);
    move_blobs(&mut w);
    assert!(w.blobs.is_empty());
}

#[test]
fn blob_with_path_of_n_lasts_n_minus_one_moves() {
    for n in 1..6 {
        let path: Vec<(i32, i32)> = (0..n).map(|x| (x, 0)).collect();
        let mut w = World::new();
        w.blobs.push(blob_on(PadTeam::Red, path, 0));
        for k in 1..n {
            move_blobs(&mut w);
            assert_eq!(w.blobs.len(), 1);
            assert_eq!(w.blobs[0].tile, (k, 0));
        }
        move_blobs(&mut w);
        assert!(w.blobs.is_empty());
    }
}

#[test]
fn move_keeps_order_of_remaining_blobs() {
    let mut w = World::new();
    w.blobs.push(blob_on(PadTeam::Blue, vec![(0, 0), (1, 0)], 1));
    w.blobs.push(blob_on(PadTeam::Red, vec![(5, 5), (5, 4), (5, 3)], 0));
    w.blobs.push(blob_on(PadTeam::Green, vec![(2, 2), (3, 2)], 0));
    move_blobs(&mut w);
    assert_eq!(w.blobs.len(), 2);
    assert_eq!(w.blobs[0].team, PadTeam::Red);
    assert_eq!(w.blobs[0].tile, (5, 4));
    assert_eq!(w.blobs[1].team, PadTeam::Green);
    assert_eq!(w.blobs[1].tile, (3, 2));
}

#[test]
fn trigger_removes_blob_on_its_tile_only() {
    let mut w = World::new();
    w.blobs.push(blob_on(PadTeam::Blue, vec![(1, 1), (1, 0)], 0));
    w.blobs.push(blob_on(PadTeam::Red, vec![(3, 1), (3, 0)], 0));
    w.triggers.push((1, 1));
    trigger_blobs(&mut w);
    assert!(w.triggers.is_empty());
    assert_eq!(w.blobs.len(), 1);
    assert_eq!(w.blobs[0].team, PadTeam::Red);
    trigger_blobs(&mut w);
    assert_eq!(w.blobs.len(), 1);
}

#[test]
fn trigger_without_blobs_is_consumed() {
    let mut w = World::new();
    w.triggers.push((4, 4));
    w.triggers.push((4, 4));
    trigger_blobs(&mut w);
    assert!(w.triggers.is_empty());
    assert!(w.blobs.is_empty());
}

#[test]
fn spawner_fires_every_interval() {
    let g = Grid::new(3, 4, 10, 10);
    let mut w = World::new();
    w.spawners.push(BlobSpawn { team: PadTeam::Blue, tile: (1, 3), interval: 3, timer: 3 });
    w.goals.push(BlobGoal { team: PadTeam::Blue, tile: (1, 0) });
    assert!(spawn_blobs(&g, &mut w).is_ok());
    assert_eq!(w.spawners[0].timer, 2);
    assert!(w.blobs.is_empty());
    assert!(spawn_blobs(&g, &mut w).is_ok());
    assert_eq!(w.spawners[0].timer, 1);
    assert!(spawn_blobs(&g, &mut w).is_ok());
    assert_eq!(w.spawners[0].timer, 3);
    assert_eq!(w.blobs.len(), 1);
    let b = &w.blobs[0];
    assert_eq!(b.team, PadTeam::Blue);
    assert_eq!(b.tile, (1, 3));
    assert_eq!(b.path_index, 0);
    assert_eq!(b.path, vec![(1, 3), (1, 2), (1, 1), (1, 0)]);
}

#[test]
fn spawner_uses_goal_of_its_own_team() {
    let g = Grid::new(5, 5, 10, 10);
    let mut w = World::new();
    w.spawners.push(BlobSpawn { team: PadTeam::Green, tile: (0, 4), interval: 1, timer: 1 });
    w.goals.push(BlobGoal { team: PadTeam::Blue, tile: (0, 0) });
    w.goals.push(BlobGoal { team: PadTeam::Green, tile: (4, 4) });
    assert!(spawn_blobs(&g, &mut w).is_ok());
    assert_eq!(w.blobs.len(), 1);
    assert_eq!(*w.blobs[0].path.last().unwrap(), (4, 4));
    assert_eq!(w.blobs[0].path.len(), 5);
}

#[test]
fn spawn_without_route_is_skipped() {
    let mut g = Grid::new(3, 3, 10, 10);
    for x in 0..3 {
        g.set_occupied((x, 1), true);
    }
    let mut w = World::new();
    w.spawners.push(BlobSpawn { team: PadTeam::Yellow, tile: (1, 2), interval: 2, timer: 1 });
    w.goals.push(BlobGoal { team: PadTeam::Yellow, tile: (1, 0) });
    assert!(spawn_blobs(&g, &mut w).is_ok());
    assert!(w.blobs.is_empty());
    assert_eq!(w.spawners[0].timer, 2);
}

#[test]
fn spawn_without_goal_fails_and_changes_nothing() {
    let g = Grid::new(3, 3, 10, 10);
    let mut w = World::new();
    w.spawners.push(BlobSpawn { team: PadTeam::Blue, tile: (0, 2), interval: 2, timer: 2 });
    w.spawners.push(BlobSpawn { team: PadTeam::Red, tile: (1, 2), interval: 2, timer: 1 });
    w.goals.push(BlobGoal { team: PadTeam::Blue, tile: (0, 0) });
    let r = spawn_blobs(&g, &mut w);
    assert!(matches!(r, Err(SpawnError::MissingGoal(PadTeam::Red))));
    assert_eq!(w.spawners[0].timer, 2);
    assert_eq!(w.spawners[1].timer, 1);
    assert!(w.blobs.is_empty());
}

#[test]
fn spawner_not_firing_needs_no_goal() {
    let g = Grid::new(3, 3, 10, 10);
    let mut w = World::new();
    w.spawners.push(BlobSpawn { team: PadTeam::Blue, tile: (0, 2), interval: 4, timer: 4 });
    assert!(spawn_blobs(&g, &mut w).is_ok());
    assert_eq!(w.spawners[0].timer, 3);
}

#[test]
fn pad_fires_trigger_and_restarts_pulse() {
    let mut w = World::new();
    w.pads.push(Pad { team: PadTeam::Blue, tile: (1, 1), pulse_timer: 0 });
    w.pads.push(Pad { team: PadTeam::Red, tile: (3, 1), pulse_timer: 50_000 });
    let keys = TeamKeys { blue: true, red: false, green: false, yellow: false };
    pad_update(20_000, &keys, &mut w);
    assert_eq!(w.pads[0].pulse_timer, PAD_PULSE_TIME);
    assert_eq!(w.pads[1].pulse_timer, 30_000);
    assert_eq!(w.triggers, vec![(1, 1)]);
    pad_update(40_000, &no_keys(), &mut w);
    assert_eq!(w.pads[0].pulse_timer, PAD_PULSE_TIME - 40_000);
    assert_eq!(w.pads[1].pulse_timer, 0);
    assert_eq!(w.triggers, vec![(1, 1)]);
}

#[test]
fn trigger_fired_by_pad_captures_blob_the_same_frame() {
    let mut w = World::new();
    w.pads.push(Pad { team: PadTeam::Green, tile: (5, 1), pulse_timer: 0 });
    w.blobs.push(blob_on(PadTeam::Blue, vec![(5, 2), (5, 1), (5, 0)], 1));
    w.blobs.push(blob_on(PadTeam::Blue, vec![(1, 2), (1, 1), (1, 0)], 1));
    let keys = TeamKeys { blue: false, red: false, green: true, yellow: false };
    pad_update(1_000, &keys, &mut w);
    trigger_blobs(&mut w);
    assert!(w.triggers.is_empty());
    assert_eq!(w.blobs.len(), 1);
    assert_eq!(w.blobs[0].tile, (1, 1));
}

#[test]
fn tween_segment_clamps_to_the_path() {
    let b = blob_on(PadTeam::Blue, vec![(0, 0), (0, 1), (0, 2)], 0);
    assert_eq!(b.tween_segment(false), ((0, 0), (0, 0)));
    assert_eq!(b.tween_segment(true), ((0, 0), (0, 1)));
    let b = blob_on(PadTeam::Blue, vec![(0, 0), (0, 1), (0, 2)], 2);
    assert_eq!(b.tween_segment(false), ((0, 1), (0, 2)));
    assert_eq!(b.tween_segment(true), ((0, 2), (0, 2)));
}
