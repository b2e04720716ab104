use vstd::prelude::*;

use crate::beat::BeatScheduler;
use crate::components::{blob_views, BlobGoal, BlobSpawn, BlobView, Pad, PadTeam, TeamKeys};
use crate::grid::{Grid, GridView, Tile};
use crate::systems::{
    fired, made_blob, missing_goal, move_blobs, moved, pad_after, pad_update, spawn_blobs, spawned,
    survivors, ticked, trigger_blobs, SpawnError,
};
use crate::world::World;

verus! {

/// Length of one beat, in microseconds.
pub const BEAT_TIME: u64 = 250_000;

/// A spawner after `k` beats.
pub open spec fn ticked_n(s: BlobSpawn, k: nat) -> BlobSpawn
    decreases k,
{
    if k == 0 {
        s
    } else {
        ticked(ticked_n(s, (k - 1) as nat))
    }
}

/// The spawners after `k` beats.
pub open spec fn spawners_at(spawners: Seq<BlobSpawn>, k: nat) -> Seq<BlobSpawn> {
    spawners.map_values(|s: BlobSpawn| ticked_n(s, k))
}

/// One beat's change to the blobs: every blob moves, then the blobs that the spawners make are
/// added after them.
pub open spec fn beat_blobs(
    g: GridView,
    goals: Seq<BlobGoal>,
    spawners: Seq<BlobSpawn>,
    before: Seq<BlobView>,
    after: Seq<BlobView>,
) -> bool {
    let m = moved(before);
    let made = spawned(g, goals, spawners);
    &&& after.len() == m.len() + made.len()
    &&& after.subrange(0, m.len() as int) == m
    &&& forall|j: int| 0 <= j < made.len() ==> made_blob(g, #[trigger] after[m.len() + j], made[j])
}

/// `states[i + 1]` follows `states[i]` by one beat, for every beat of the sequence; the
/// spawners start from `spawners`.
pub open spec fn beat_history(
    g: GridView,
    goals: Seq<BlobGoal>,
    spawners: Seq<BlobSpawn>,
    states: Seq<Seq<BlobView>>,
) -> bool {
    forall|i: int|
        0 <= i < states.len() - 1 ==> beat_blobs(
            g,
            goals,
            spawners_at(spawners, i as nat),
            #[trigger] states[i],
            states[i + 1],
        )
}

/// `after` can be the blobs `k` beats after `before`, the spawners starting from `spawners`.
pub open spec fn beats_run(
    g: GridView,
    goals: Seq<BlobGoal>,
    spawners: Seq<BlobSpawn>,
    before: Seq<BlobView>,
    k: nat,
    after: Seq<BlobView>,
) -> bool {
    exists|states: Seq<Seq<BlobView>>|
        #[trigger] beat_history(g, goals, spawners, states) && states.len() == k + 1 && states[0]
            == before && states[k as int] == after
}

/// The walls after a frame whose mouse hovered `hovered`.
pub open spec fn walls_after(g: GridView, walls: Seq<Tile>, hovered: Option<Tile>, mouse_down: bool) -> Seq<Tile> {
    match hovered {
        Some(t) => if mouse_down && !g.occupied.contains(t) {
            walls.push(t)
        } else {
            walls
        },
        None => walls,
    }
}

/// The level: a grid, its entities and the beat clock.
pub struct Game {
    grid: Grid,
    hovered_tile: Option<Tile>,
    world: World,
    beat: BeatScheduler,
}

impl Game {
    pub closed spec fn spec_grid(&self) -> GridView {
        self.grid@
    }

    pub closed spec fn spec_world(&self) -> World {
        self.world
    }

    pub closed spec fn spec_hovered_tile(&self) -> Option<Tile> {
        self.hovered_tile
    }

    pub closed spec fn spec_beat(&self) -> BeatScheduler {
        self.beat
    }

    pub open spec fn wf(&self) -> bool {
        &&& self.spec_grid().wf()
        &&& self.spec_world().wf()
        &&& self.spec_beat().wf()
        &&& self.spec_beat().spec_period() == BEAT_TIME
        &&& self.spec_world().walls@.to_set() == self.spec_grid().occupied
    }

    /// A 9 by 10 grid of 40-pixel cells with a pad on row 1, a spawner on row 9 (intervals 2, 4,
    /// 6 and 8 beats) and a goal on row 0 for each team, in columns 1, 3, 5 and 7.
    pub fn new() -> (g: Game)
        ensures
            g.wf(),
            g.spec_grid().width == 9,
            g.spec_grid().height == 10,
            g.spec_grid().cell_width == 40,
            g.spec_grid().cell_height == 40,
            g.spec_grid().occupied == Set::<Tile>::empty(),
            g.spec_hovered_tile() is None,
            g.spec_beat().spec_accumulator() == 0,
            g.spec_world().pads@ == seq![
                Pad { team: PadTeam::Blue, tile: (1, 1), pulse_timer: 0 },
                Pad { team: PadTeam::Red, tile: (3, 1), pulse_timer: 0 },
                Pad { team: PadTeam::Green, tile: (5, 1), pulse_timer: 0 },
                Pad { team: PadTeam::Yellow, tile: (7, 1), pulse_timer: 0 },
            ],
            g.spec_world().spawners@ == seq![
                BlobSpawn { team: PadTeam::Blue, tile: (1, 9), interval: 2, timer: 2 },
                BlobSpawn { team: PadTeam::Red, tile: (3, 9), interval: 4, timer: 4 },
                BlobSpawn { team: PadTeam::Green, tile: (5, 9), interval: 6, timer: 6 },
                BlobSpawn { team: PadTeam::Yellow, tile: (7, 9), interval: 8, timer: 8 },
            ],
            g.spec_world().goals@ == seq![
                BlobGoal { team: PadTeam::Blue, tile: (1, 0) },
                BlobGoal { team: PadTeam::Red, tile: (3, 0) },
                BlobGoal { team: PadTeam::Green, tile: (5, 0) },
                BlobGoal { team: PadTeam::Yellow, tile: (7, 0) },
            ],
            g.spec_world().blobs@.len() == 0,
            g.spec_world().triggers@.len() == 0,
            g.spec_world().walls@.len() == 0,
    {
        let mut game = Game {
            grid: Grid::new(9, 10, 40, 40),
            hovered_tile: None,
            world: World::new(),
            beat: BeatScheduler::new(BEAT_TIME),
        };
        assert(game.world.walls@.to_set() =~= game.grid@.occupied);
        game.init();
        game
    }

    fn init(&mut self)
        requires
            old(self).wf(),
            old(self).spec_world().pads@.len() == 0,
            old(self).spec_world().spawners@.len() == 0,
            old(self).spec_world().goals@.len() == 0,
        ensures
            final(self).wf(),
            final(self).spec_grid() == old(self).spec_grid(),
            final(self).spec_hovered_tile() == old(self).spec_hovered_tile(),
            final(self).spec_beat() == old(self).spec_beat(),
            final(self).spec_world().pads@ == seq![
                Pad { team: PadTeam::Blue, tile: (1, 1), pulse_timer: 0 },
                Pad { team: PadTeam::Red, tile: (3, 1), pulse_timer: 0 },
                Pad { team: PadTeam::Green, tile: (5, 1), pulse_timer: 0 },
                Pad { team: PadTeam::Yellow, tile: (7, 1), pulse_timer: 0 },
            ],
            final(self).spec_world().spawners@ == seq![
                BlobSpawn { team: PadTeam::Blue, tile: (1, 9), interval: 2, timer: 2 },
                BlobSpawn { team: PadTeam::Red, tile: (3, 9), interval: 4, timer: 4 },
                BlobSpawn { team: PadTeam::Green, tile: (5, 9), interval: 6, timer: 6 },
                BlobSpawn { team: PadTeam::Yellow, tile: (7, 9), interval: 8, timer: 8 },
            ],
            final(self).spec_world().goals@ == seq![
                BlobGoal { team: PadTeam::Blue, tile: (1, 0) },
                BlobGoal { team: PadTeam::Red, tile: (3, 0) },
                BlobGoal { team: PadTeam::Green, tile: (5, 0) },
                BlobGoal { team: PadTeam::Yellow, tile: (7, 0) },
            ],
            final(self).spec_world().blobs@ == old(self).spec_world().blobs@,
            final(self).spec_world().triggers@ == old(self).spec_world().triggers@,
            final(self).spec_world().walls@ == old(self).spec_world().walls@,
    {
        self.insert_pad(1, 1, PadTeam::Blue);
        self.insert_pad(3, 1, PadTeam::Red);
        self.insert_pad(5, 1, PadTeam::Green);
        self.insert_pad(7, 1, PadTeam::Yellow);

        self.insert_spawn(1, 9, PadTeam::Blue, 2);
        self.insert_spawn(3, 9, PadTeam::Red, 4);
        self.insert_spawn(5, 9, PadTeam::Green, 6);
        self.insert_spawn(7, 9, PadTeam::Yellow, 8);

        self.insert_goal(1, 0, PadTeam::Blue);
        self.insert_goal(3, 0, PadTeam::Red);
        self.insert_goal(5, 0, PadTeam::Green);
        self.insert_goal(7, 0, PadTeam::Yellow);
        assert(self.spec_world().pads@ =~= seq![
            Pad { team: PadTeam::Blue, tile: (1, 1), pulse_timer: 0 },
            Pad { team: PadTeam::Red, tile: (3, 1), pulse_timer: 0 },
            Pad { team: PadTeam::Green, tile: (5, 1), pulse_timer: 0 },
            Pad { team: PadTeam::Yellow, tile: (7, 1), pulse_timer: 0 },
        ]);
        assert(self.spec_world().spawners@ =~= seq![
            BlobSpawn { team: PadTeam::Blue, tile: (1, 9), interval: 2, timer: 2 },
            BlobSpawn { team: PadTeam::Red, tile: (3, 9), interval: 4, timer: 4 },
            BlobSpawn { team: PadTeam::Green, tile: (5, 9), interval: 6, timer: 6 },
            BlobSpawn { team: PadTeam::Yellow, tile: (7, 9), interval: 8, timer: 8 },
        ]);
        assert(self.spec_world().goals@ =~= seq![
            BlobGoal { team: PadTeam::Blue, tile: (1, 0) },
            BlobGoal { team: PadTeam::Red, tile: (3, 0) },
            BlobGoal { team: PadTeam::Green, tile: (5, 0) },
            BlobGoal { team: PadTeam::Yellow, tile: (7, 0) },
        ]);
    }

    pub fn grid(&self) -> (r: &Grid)
        ensures
            r@ == self.spec_grid(),
    {
        &self.grid
    }

    pub fn world(&self) -> (r: &World)
        ensures
            *r == self.spec_world(),
    {
        &self.world
    }

    pub fn hovered_tile(&self) -> (r: Option<Tile>)
        ensures
            r == self.spec_hovered_tile(),
    {
        self.hovered_tile
    }

    /// Progress toward the next beat as `(numerator, denominator)`, in `[0, 1)`.
    pub fn beat_phase(&self) -> (r: (u64, u64))
        requires
            self.wf(),
        ensures
            r.0 == self.spec_beat().spec_accumulator(),
            r.1 == BEAT_TIME,
            r.0 < r.1,
    {
        self.beat.phase()
    }

    /// One frame: the tile under the mouse becomes the hovered tile and, while the button is
    /// down, a wall if it is free; then one beat of movement and spawning per whole beat period
    /// gathered; then the pads and the triggers. Fails with the first spawning error, exactly when
    /// one of those beats has a firing spawner without a goal of its team.
    pub fn update(&mut self, dt: u64, mouse: (i32, i32), mouse_down: bool, keys: &TeamKeys) -> (r:
        Result<(), SpawnError>)
        requires
            old(self).wf(),
            dt <= u64::MAX - BEAT_TIME,
        ensures
            final(self).wf(),
            final(self).spec_hovered_tile() == old(self).spec_grid().tile_at(mouse),
            final(self).spec_grid().width == old(self).spec_grid().width,
            final(self).spec_grid().height == old(self).spec_grid().height,
            final(self).spec_grid().cell_width == old(self).spec_grid().cell_width,
            final(self).spec_grid().cell_height == old(self).spec_grid().cell_height,
            final(self).spec_grid().occupied == match old(self).spec_grid().tile_at(mouse) {
                Some(t) => if mouse_down {
                    old(self).spec_grid().occupied.insert(t)
                } else {
                    old(self).spec_grid().occupied
                },
                None => old(self).spec_grid().occupied,
            },
            final(self).spec_beat().spec_accumulator() == (old(self).spec_beat().spec_accumulator()
                + dt) % (BEAT_TIME as int),
            r is Ok ==> final(self).spec_world().triggers@.len() == 0,
            r is Ok ==> final(self).spec_world().pads@ == old(self).spec_world().pads@.map_values(
                |p: Pad| pad_after(p, dt, *keys),
            ),
            r is Err <==> exists|k: nat|
                k < (old(self).spec_beat().spec_accumulator() + dt) / (BEAT_TIME as int)
                    && #[trigger] missing_goal(
                    old(self).spec_world().goals@,
                    spawners_at(old(self).spec_world().spawners@, k),
                ),
            r is Ok ==> final(self).spec_world().spawners@ == spawners_at(
                old(self).spec_world().spawners@,
                ((old(self).spec_beat().spec_accumulator() + dt) / (BEAT_TIME as int)) as nat,
            ),
            r is Ok ==> exists|bs: Seq<BlobView>|
                #[trigger] beats_run(
                    final(self).spec_grid(),
                    old(self).spec_world().goals@,
                    old(self).spec_world().spawners@,
                    blob_views(old(self).spec_world().blobs@),
                    ((old(self).spec_beat().spec_accumulator() + dt) / (BEAT_TIME as int)) as nat,
                    bs,
                ) && blob_views(final(self).spec_world().blobs@) == survivors(
                    bs,
                    old(self).spec_world().triggers@ + fired(old(self).spec_world().pads@, *keys),
                ),
            final(self).spec_world().goals@ == old(self).spec_world().goals@,
            final(self).spec_world().walls@ == walls_after(
                old(self).spec_grid(),
                old(self).spec_world().walls@,
                old(self).spec_grid().tile_at(mouse),
                mouse_down,
            ),
    {
        self.hovered_tile = self.grid.tile_at(mouse);
        if let Some(tile) = self.hovered_tile {
            if mouse_down {
                self.insert_wall(tile);
            }
        }
        let ghost pads0 = self.world.pads@;
        let ghost spawners0 = self.world.spawners@;
        let ghost goals0 = self.world.goals@;
        let ghost blobs0 = blob_views(self.world.blobs@);
        let ghost triggers0 = self.world.triggers@;
        let ticks = self.beat.advance(dt);
        let mut k: u64 = 0;
        let ghost mut states: Seq<Seq<BlobView>> = seq![blobs0];
        assert(spawners0 =~= spawners_at(spawners0, 0));
        while k < ticks
            invariant
                self.wf(),
                0 <= k <= ticks,
                goals0 == old(self).spec_world().goals@,
                blobs0 == blob_views(old(self).spec_world().blobs@),
                triggers0 == old(self).spec_world().triggers@,
                self.world.triggers@ == triggers0,
                forall|j: nat| j < k ==> !#[trigger] missing_goal(goals0, spawners_at(spawners0, j)),
                beat_history(self.grid@, goals0, spawners0, states),
                states.len() == k + 1,
                states[0] == blobs0,
                states[k as int] == blob_views(self.world.blobs@),
                ticks == (old(self).spec_beat().spec_accumulator() + dt) / (BEAT_TIME as int),
                self.world.pads@ == pads0,
                pads0 == old(self).spec_world().pads@,
                spawners0 == old(self).spec_world().spawners@,
                self.world.spawners@ == spawners_at(spawners0, k as nat),
                self.world.goals@ == old(self).spec_world().goals@,
                self.world.walls@ == walls_after(
                    old(self).spec_grid(),
                    old(self).spec_world().walls@,
                    old(self).spec_grid().tile_at(mouse),
                    mouse_down,
                ),
                self.hovered_tile == old(self).spec_grid().tile_at(mouse),
                self.grid@.width == old(self).spec_grid().width,
                self.grid@.height == old(self).spec_grid().height,
                self.grid@.cell_width == old(self).spec_grid().cell_width,
                self.grid@.cell_height == old(self).spec_grid().cell_height,
                self.grid@.occupied == match old(self).spec_grid().tile_at(mouse) {
                    Some(t) => if mouse_down {
                        old(self).spec_grid().occupied.insert(t)
                    } else {
                        old(self).spec_grid().occupied
                    },
                    None => old(self).spec_grid().occupied,
                },
                self.beat.spec_accumulator() == (old(self).spec_beat().spec_accumulator() + dt) % (
                BEAT_TIME as int),
            decreases ticks - k,
        {
            let ghost cur = blob_views(self.world.blobs@);
            move_blobs(&mut self.world);
            let ghost after_move = self.world.blobs@;
            let result = spawn_blobs(&self.grid, &mut self.world);
            match result {
                Ok(()) => {},
                Err(e) => {
                    assert(missing_goal(goals0, spawners_at(spawners0, k as nat)));
                    return Err(e);
                },
            }
            proof {
                let g = self.grid@;
                let now = blob_views(self.world.blobs@);
                let m = moved(cur);
                let made = spawned(g, goals0, spawners_at(spawners0, k as nat));
                assert(now.subrange(0, m.len() as int) =~= m) by {
                    assert forall|i: int| 0 <= i < m.len() implies now[i] == m[i] by {
                        assert(self.world.blobs@[i] == after_move[i]);
                    }
                }
                assert forall|j: int| 0 <= j < made.len() implies made_blob(g, #[trigger] now[m.len() + j], made[j]) by {
                    assert(now[m.len() + j] == self.world.blobs@[after_move.len() + j]@);
                }
                assert(beat_blobs(g, goals0, spawners_at(spawners0, k as nat), cur, now));
                let old_states = states;
                states = states.push(now);
                assert forall|i: int| 0 <= i < states.len() - 1 implies beat_blobs(
                    g,
                    goals0,
                    spawners_at(spawners0, i as nat),
                    #[trigger] states[i],
                    states[i + 1],
                ) by {
                    if i < k {
                        assert(states[i] == old_states[i] && states[i + 1] == old_states[i + 1]);
                    }
                }
            }
            assert(self.world.spawners@ =~= spawners_at(spawners0, (k + 1) as nat));
            k += 1;
        }
        let ghost bs = blob_views(self.world.blobs@);
        pad_update(dt, keys, &mut self.world);
        trigger_blobs(&mut self.world);
        assert(beat_history(self.grid@, goals0, spawners0, states));
        assert(states[ticks as int] == bs);
        assert(beats_run(self.grid@, goals0, spawners0, blobs0, ticks as nat, bs));
        assert(beats_run(
            self.spec_grid(),
            old(self).spec_world().goals@,
            old(self).spec_world().spawners@,
            blob_views(old(self).spec_world().blobs@),
            ((old(self).spec_beat().spec_accumulator() + dt) / (BEAT_TIME as int)) as nat,
            bs,
        ));
        Ok(())
    }

    /// Adds a pad of `team` at `(x, y)`, its pulse at rest.
    pub fn insert_pad(&mut self, x: i32, y: i32, team: PadTeam)
        requires
            old(self).wf(),
        ensures
            final(self).wf(),
            final(self).spec_grid() == old(self).spec_grid(),
            final(self).spec_hovered_tile() == old(self).spec_hovered_tile(),
            final(self).spec_beat() == old(self).spec_beat(),
            final(self).spec_world().pads@ == old(self).spec_world().pads@.push(
                Pad { team, tile: (x, y), pulse_timer: 0 },
            ),
            final(self).spec_world().spawners@ == old(self).spec_world().spawners@,
            final(self).spec_world().goals@ == old(self).spec_world().goals@,
            final(self).spec_world().blobs@ == old(self).spec_world().blobs@,
            final(self).spec_world().triggers@ == old(self).spec_world().triggers@,
            final(self).spec_world().walls@ == old(self).spec_world().walls@,
    {
        self.world.pads.push(Pad { team, tile: (x, y), pulse_timer: 0 });
    }

    /// Adds a spawner of `team` at `(x, y)` that fires every `interval` beats.
    pub fn insert_spawn(&mut self, x: i32, y: i32, team: PadTeam, interval: i32)
        requires
            old(self).wf(),
            interval >= 1,
        ensures
            final(self).wf(),
            final(self).spec_grid() == old(self).spec_grid(),
            final(self).spec_hovered_tile() == old(self).spec_hovered_tile(),
            final(self).spec_beat() == old(self).spec_beat(),
            final(self).spec_world().spawners@ == old(self).spec_world().spawners@.push(
                BlobSpawn { team, tile: (x, y), interval, timer: interval },
            ),
            final(self).spec_world().pads@ == old(self).spec_world().pads@,
            final(self).spec_world().goals@ == old(self).spec_world().goals@,
            final(self).spec_world().blobs@ == old(self).spec_world().blobs@,
            final(self).spec_world().triggers@ == old(self).spec_world().triggers@,
            final(self).spec_world().walls@ == old(self).spec_world().walls@,
    {
        self.world.spawners.push(BlobSpawn { team, tile: (x, y), interval, timer: interval });
    }

    /// Adds a goal of `team` at `(x, y)`.
    pub fn insert_goal(&mut self, x: i32, y: i32, team: PadTeam)
        requires
            old(self).wf(),
        ensures
            final(self).wf(),
            final(self).spec_grid() == old(self).spec_grid(),
            final(self).spec_hovered_tile() == old(self).spec_hovered_tile(),
            final(self).spec_beat() == old(self).spec_beat(),
            final(self).spec_world().goals@ == old(self).spec_world().goals@.push(BlobGoal { team, tile: (x, y) }),
            final(self).spec_world().pads@ == old(self).spec_world().pads@,
            final(self).spec_world().spawners@ == old(self).spec_world().spawners@,
            final(self).spec_world().blobs@ == old(self).spec_world().blobs@,
            final(self).spec_world().triggers@ == old(self).spec_world().triggers@,
            final(self).spec_world().walls@ == old(self).spec_world().walls@,
    {
        self.world.goals.push(BlobGoal { team, tile: (x, y) });
    }

    /// Puts a wall on `tile` and marks it occupied, unless it is occupied already.
    pub fn insert_wall(&mut self, tile: Tile)
        requires
            old(self).wf(),
        ensures
            final(self).wf(),
            final(self).spec_grid().width == old(self).spec_grid().width,
            final(self).spec_grid().height == old(self).spec_grid().height,
            final(self).spec_grid().cell_width == old(self).spec_grid().cell_width,
            final(self).spec_grid().cell_height == old(self).spec_grid().cell_height,
            final(self).spec_grid().occupied == old(self).spec_grid().occupied.insert(tile),
            final(self).spec_hovered_tile() == old(self).spec_hovered_tile(),
            final(self).spec_beat() == old(self).spec_beat(),
            final(self).spec_world().walls@ == if old(self).spec_grid().occupied.contains(tile) {
                old(self).spec_world().walls@
            } else {
                old(self).spec_world().walls@.push(tile)
            },
            final(self).spec_world().pads@ == old(self).spec_world().pads@,
            final(self).spec_world().spawners@ == old(self).spec_world().spawners@,
            final(self).spec_world().goals@ == old(self).spec_world().goals@,
            final(self).spec_world().blobs@ == old(self).spec_world().blobs@,
            final(self).spec_world().triggers@ == old(self).spec_world().triggers@,
    {
        if !self.grid.occupied(&tile) {
            let ghost w0 = self.world.walls@;
            self.world.walls.push(tile);
            self.grid.set_occupied(tile, true);
            assert(self.world.walls@.to_set() =~= w0.to_set().insert(tile)) by {
                assert forall|u: Tile| #[trigger] self.world.walls@.contains(u) == (w0.contains(u) || u == tile) by {
                    if self.world.walls@.contains(u) {
                        let i = choose|i: int| 0 <= i < self.world.walls@.len() && self.world.walls@[i] == u;
                        if i < w0.len() {
                            assert(w0[i] == u);
                        }
                    }
                    if w0.contains(u) {
                        let i = choose|i: int| 0 <= i < w0.len() && w0[i] == u;
                        assert(self.world.walls@[i] == u);
                    }
                    if u == tile {
                        assert(self.world.walls@[w0.len() as int] == u);
                    }
                }
            }
        } else {
            assert(self.grid@.occupied.insert(tile) =~= self.grid@.occupied);
        }
    }
}

} // verus!
