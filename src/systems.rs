use vstd::prelude::*;

use crate::components::{blob_views, Blob, BlobGoal, BlobSpawn, BlobView, Pad, PadTeam, TeamKeys};
use crate::grid::{is_path, manhattan, path_exists, Grid, GridView, Tile};
use crate::pathfind::open_grid;
use crate::world::World;

verus! {

/// How long a pad's pulse lasts after it fires, in microseconds.
pub const PAD_PULSE_TIME: u64 = 100_000;

/// One beat of a blob: it moves to the next tile of its path, or is gone past the end.
pub open spec fn step_blob(b: BlobView) -> Option<BlobView> {
    if b.path_index + 1 < b.path.len() {
        Some(
            BlobView {
                team: b.team,
                tile: b.path[b.path_index + 1],
                path: b.path,
                path_index: b.path_index + 1,
            },
        )
    } else {
        None
    }
}

/// The blob after `k` beats, if it is still there.
pub open spec fn step_blob_n(b: BlobView, k: nat) -> Option<BlobView>
    decreases k,
{
    if k == 0 {
        Some(b)
    } else {
        match step_blob_n(b, (k - 1) as nat) {
            Some(c) => step_blob(c),
            None => None,
        }
    }
}

pub open spec fn moved(s: Seq<BlobView>) -> Seq<BlobView> {
    s.filter_map(|b: BlobView| step_blob(b))
}

pub open spec fn ticked(s: BlobSpawn) -> BlobSpawn {
    BlobSpawn {
        team: s.team,
        tile: s.tile,
        interval: s.interval,
        timer: if s.timer == 1 {
            s.interval
        } else {
            (s.timer - 1) as i32
        },
    }
}

/// A spawner fires on the beat that brings its countdown to zero.
pub open spec fn fires(s: BlobSpawn) -> bool {
    s.timer == 1
}

/// The tile of the first goal of `team`.
pub open spec fn goal_of(goals: Seq<BlobGoal>, team: PadTeam) -> Option<Tile>
    decreases goals.len(),
{
    if goals.len() == 0 {
        None
    } else if goals[0].team == team {
        Some(goals[0].tile)
    } else {
        goal_of(goals.subrange(1, goals.len() as int), team)
    }
}

/// Some spawner that fires has no goal of its team.
pub open spec fn missing_goal(goals: Seq<BlobGoal>, spawners: Seq<BlobSpawn>) -> bool {
    exists|i: int| 0 <= i < spawners.len() && fires(spawners[i]) && #[trigger] goal_of(goals, spawners[i].team) is None
}

/// What a spawner makes this beat: `(team, from, to)` when it fires and a route exists.
pub open spec fn spawn_of(g: GridView, goals: Seq<BlobGoal>, s: BlobSpawn) -> Option<(PadTeam, Tile, Tile)> {
    if fires(s) {
        match goal_of(goals, s.team) {
            Some(t) => if path_exists(g, s.tile, t) {
                Some((s.team, s.tile, t))
            } else {
                None
            },
            None => None,
        }
    } else {
        None
    }
}

pub open spec fn spawned(g: GridView, goals: Seq<BlobGoal>, spawners: Seq<BlobSpawn>) -> Seq<(PadTeam, Tile, Tile)> {
    spawners.filter_map(|s: BlobSpawn| spawn_of(g, goals, s))
}

pub open spec fn pad_after(p: Pad, dt: u64, keys: TeamKeys) -> Pad {
    Pad {
        team: p.team,
        tile: p.tile,
        pulse_timer: if keys.spec_pressed(p.team) {
            PAD_PULSE_TIME
        } else if p.pulse_timer >= dt {
            (p.pulse_timer - dt) as u64
        } else {
            0
        },
    }
}

pub open spec fn fired_tile(p: Pad, keys: TeamKeys) -> Option<Tile> {
    if keys.spec_pressed(p.team) {
        Some(p.tile)
    } else {
        None
    }
}

pub open spec fn fired(pads: Seq<Pad>, keys: TeamKeys) -> Seq<Tile> {
    pads.filter_map(|p: Pad| fired_tile(p, keys))
}

pub open spec fn survivors(blobs: Seq<BlobView>, triggers: Seq<Tile>) -> Seq<BlobView> {
    blobs.filter(|b: BlobView| !triggers.contains(b.tile))
}

pub enum SpawnError {
    /// A spawner of this team fired and the level has no goal for the team.
    MissingGoal(PadTeam),
}

/// Advances every blob one tile along its path; a blob past the end of its path has reached
/// its goal and is removed.
pub fn move_blobs(world: &mut World)
    requires
        old(world).wf(),
    ensures
        final(world).wf(),
        blob_views(final(world).blobs@) == moved(blob_views(old(world).blobs@)),
        final(world).pads@ == old(world).pads@,
        final(world).spawners@ == old(world).spawners@,
        final(world).goals@ == old(world).goals@,
        final(world).triggers@ == old(world).triggers@,
        final(world).walls@ == old(world).walls@,
{
    let mut pending: Vec<Blob> = Vec::new();
    std::mem::swap(&mut pending, &mut world.blobs);
    let ghost orig = blob_views(pending@);
    let ghost n = pending@.len() as int;
    assert(blob_views(world.blobs@) =~= moved(orig.subrange(0, 0)));
    assert(blob_views(pending@) =~= orig.subrange(0, n));
    while pending.len() > 0
        invariant
            n == orig.len(),
            0 <= pending@.len() <= n,
            blob_views(pending@) == orig.subrange(n - pending@.len(), n),
            blob_views(world.blobs@) == moved(orig.subrange(0, n - pending@.len())),
            forall|i: int| 0 <= i < orig.len() ==> #[trigger] orig[i].wf(),
            forall|i: int| 0 <= i < world.blobs@.len() ==> #[trigger] world.blobs@[i]@.wf(),
            forall|i: int| 0 <= i < world.spawners@.len() ==> #[trigger] world.spawners@[i].wf(),
            world.pads@ == old(world).pads@,
            world.spawners@ == old(world).spawners@,
            world.goals@ == old(world).goals@,
            world.triggers@ == old(world).triggers@,
            world.walls@ == old(world).walls@,
        decreases pending@.len(),
    {
        let ghost i = n - pending@.len();
        let ghost before = blob_views(world.blobs@);
        let ghost rest = pending@;
        assert(blob_views(rest)[0] == orig[i]);
        let mut b = pending.remove(0);
        assert(blob_views(pending@) =~= orig.subrange(i + 1, n)) by {
            assert forall|k: int| 0 <= k < pending@.len() implies blob_views(pending@)[k] == orig.subrange(i + 1, n)[k] by {
                assert(pending@[k] == rest[k + 1]);
                assert(blob_views(rest)[k + 1] == orig.subrange(i, n)[k + 1]);
            }
        }
        assert(b@ == orig[i]);
        assert(b@.wf());
        assert(b.path_index < b.path.len());
        b.path_index = b.path_index + 1;
        if b.path_index < b.path.len() {
            b.tile = b.path[b.path_index];
            world.blobs.push(b);
            assert(blob_views(world.blobs@) =~= before.push(step_blob(orig[i])->Some_0));
        } else {
            assert(blob_views(world.blobs@) == before);
        }
        assert(orig.subrange(0, i + 1).drop_last() =~= orig.subrange(0, i));
        assert(orig.subrange(0, i + 1).last() == orig[i]);
    }
    assert(orig.subrange(0, n) =~= orig);
}

/// Removes every trigger, then every blob that stands on a tile where a trigger was.
pub fn trigger_blobs(world: &mut World)
    requires
        old(world).wf(),
    ensures
        final(world).wf(),
        final(world).triggers@.len() == 0,
        blob_views(final(world).blobs@) == survivors(
            blob_views(old(world).blobs@),
            old(world).triggers@,
        ),
        final(world).pads@ == old(world).pads@,
        final(world).spawners@ == old(world).spawners@,
        final(world).goals@ == old(world).goals@,
        final(world).walls@ == old(world).walls@,
{
    let mut tiles: Vec<Tile> = Vec::new();
    std::mem::swap(&mut tiles, &mut world.triggers);
    let mut pending: Vec<Blob> = Vec::new();
    std::mem::swap(&mut pending, &mut world.blobs);
    let ghost orig = blob_views(pending@);
    let ghost n = pending@.len() as int;
    let ghost pred = |b: BlobView| !tiles@.contains(b.tile);
    proof {
        reveal(Seq::filter);
    }
    assert(blob_views(world.blobs@) =~= orig.subrange(0, 0).filter(pred));
    assert(blob_views(pending@) =~= orig.subrange(0, n));
    while pending.len() > 0
        invariant
            n == orig.len(),
            tiles@ == old(world).triggers@,
            pred == (|b: BlobView| !tiles@.contains(b.tile)),
            0 <= pending@.len() <= n,
            blob_views(pending@) == orig.subrange(n - pending@.len(), n),
            blob_views(world.blobs@) == orig.subrange(0, n - pending@.len()).filter(pred),
            forall|i: int| 0 <= i < orig.len() ==> #[trigger] orig[i].wf(),
            forall|i: int| 0 <= i < world.blobs@.len() ==> #[trigger] world.blobs@[i]@.wf(),
            forall|i: int| 0 <= i < world.spawners@.len() ==> #[trigger] world.spawners@[i].wf(),
            world.triggers@.len() == 0,
            world.pads@ == old(world).pads@,
            world.spawners@ == old(world).spawners@,
            world.goals@ == old(world).goals@,
            world.walls@ == old(world).walls@,
        decreases pending@.len(),
    {
        let ghost i = n - pending@.len();
        let ghost before = blob_views(world.blobs@);
        let ghost rest = pending@;
        assert(blob_views(rest)[0] == orig[i]);
        let b = pending.remove(0);
        assert(blob_views(pending@) =~= orig.subrange(i + 1, n)) by {
            assert forall|k: int| 0 <= k < pending@.len() implies blob_views(pending@)[k] == orig.subrange(i + 1, n)[k] by {
                assert(pending@[k] == rest[k + 1]);
                assert(blob_views(rest)[k + 1] == orig.subrange(i, n)[k + 1]);
            }
        }
        assert(b@ == orig[i]);
        let hit = contains_tile(&tiles, b.tile);
        if !hit {
            world.blobs.push(b);
            assert(blob_views(world.blobs@) =~= before.push(orig[i]));
        } else {
            assert(blob_views(world.blobs@) == before);
        }
        proof {
            reveal(Seq::filter);
            assert(orig.subrange(0, i + 1).drop_last() =~= orig.subrange(0, i));
            assert(orig.subrange(0, i + 1).last() == orig[i]);
        }
    }
    assert(orig.subrange(0, n) =~= orig);
}

/// A blob made this beat for `(team, from, to)`: it belongs to `team` and stands on `from` at the
/// start of a route from `from` to `to` that visits no tile twice and, on a grid with nothing
/// occupied, is as short as the Manhattan distance allows.
pub open spec fn made_blob(g: GridView, b: BlobView, s: (PadTeam, Tile, Tile)) -> bool {
    &&& b.team == s.0
    &&& b.tile == s.1
    &&& b.path_index == 0
    &&& is_path(g, b.path, s.1, s.2)
    &&& b.path.no_duplicates()
    &&& open_grid(g) ==> b.path.len() == manhattan(s.1, s.2) + 1
}

/// Counts every spawner down by one beat. A spawner that reaches zero is reset to its interval
/// and, when a route to its team's goal exists, makes a blob at the start of that route. Fails,
/// changing nothing, when a spawner that fires has no goal of its team.
pub fn spawn_blobs(grid: &Grid, world: &mut World) -> (r: Result<(), SpawnError>)
    requires
        grid.wf(),
        old(world).wf(),
    ensures
        final(world).wf(),
        r is Err <==> missing_goal(old(world).goals@, old(world).spawners@),
        final(world).pads@ == old(world).pads@,
        final(world).goals@ == old(world).goals@,
        final(world).triggers@ == old(world).triggers@,
        final(world).walls@ == old(world).walls@,
        match r {
            Err(SpawnError::MissingGoal(team)) => {
                &&& exists|i: int|
                    0 <= i < old(world).spawners@.len() && fires(old(world).spawners@[i])
                        && old(world).spawners@[i].team == team
                &&& goal_of(old(world).goals@, team) is None
                &&& final(world).spawners@ == old(world).spawners@
                &&& final(world).blobs@ == old(world).blobs@
            },
            Ok(()) => {
                let made = spawned(grid@, old(world).goals@, old(world).spawners@);
                let n = old(world).blobs@.len();
                &&& final(world).spawners@ == old(world).spawners@.map_values(|s: BlobSpawn| ticked(s))
                &&& final(world).blobs@.len() == n + made.len()
                &&& forall|m: int| 0 <= m < n ==> #[trigger] final(world).blobs@[m] == old(world).blobs@[m]
                &&& forall|m: int|
                    0 <= m < made.len() ==> made_blob(grid@, #[trigger] final(world).blobs@[n + m]@, made[m])
            },
        },
{
    let ghost g = grid@;
    let ghost sp0 = world.spawners@;
    let ghost b0 = world.blobs@;
    let ghost goals = world.goals@;
    let mut i: usize = 0;
    while i < world.spawners.len()
        invariant
            world.spawners@ == sp0,
            world.goals@ == goals,
            world.blobs@ == old(world).blobs@,
            world.pads@ == old(world).pads@,
            world.triggers@ == old(world).triggers@,
            world.walls@ == old(world).walls@,
            sp0 == old(world).spawners@,
            goals == old(world).goals@,
            old(world).wf(),
            0 <= i <= sp0.len(),
            forall|k: int| 0 <= k < i && fires(sp0[k]) ==> #[trigger] goal_of(goals, sp0[k].team) is Some,
        decreases sp0.len() - i,
    {
        let s = world.spawners[i];
        if s.timer == 1 {
            match find_goal(&world.goals, s.team) {
                None => {
                    return Err(SpawnError::MissingGoal(s.team));
                },
                Some(_) => {},
            }
        }
        i += 1;
    }
    assert(!missing_goal(goals, sp0));
    let mut i: usize = 0;
    assert(spawned(g, goals, sp0.subrange(0, 0)) =~= Seq::empty());
    while i < world.spawners.len()
        invariant
            g == grid@,
            grid.wf(),
            world.goals@ == goals,
            world.pads@ == old(world).pads@,
            world.triggers@ == old(world).triggers@,
            world.walls@ == old(world).walls@,
            !missing_goal(goals, sp0),
            0 <= i <= sp0.len(),
            world.spawners@.len() == sp0.len(),
            forall|k: int| 0 <= k < i ==> #[trigger] world.spawners@[k] == ticked(sp0[k]),
            forall|k: int| i <= k < sp0.len() ==> #[trigger] world.spawners@[k] == sp0[k],
            forall|k: int| 0 <= k < sp0.len() ==> #[trigger] sp0[k].wf(),
            world.blobs@.len() == b0.len() + spawned(g, goals, sp0.subrange(0, i as int)).len(),
            forall|m: int| 0 <= m < b0.len() ==> #[trigger] world.blobs@[m] == b0[m],
            forall|m: int| 0 <= m < b0.len() ==> #[trigger] b0[m]@.wf(),
            b0 == old(world).blobs@,
            sp0 == old(world).spawners@,
            forall|m: int|
                0 <= m < spawned(g, goals, sp0.subrange(0, i as int)).len() ==> made_blob(
                    g,
                    #[trigger] world.blobs@[b0.len() + m]@,
                    spawned(g, goals, sp0.subrange(0, i as int))[m],
                ),
        decreases sp0.len() - i,
    {
        let s = world.spawners[i];
        assert(s == sp0[i as int]);
        assert(sp0[i as int].wf());
        let ghost made0 = spawned(g, goals, sp0.subrange(0, i as int));
        let ghost blobs_before = world.blobs@;
        if s.timer == 1 {
            assert(goal_of(goals, sp0[i as int].team) is Some);
            match find_goal(&world.goals, s.team) {
                Some(gt) => {
                    match grid.find_path(s.tile, gt) {
                        Some(p) => {
                            assert(path_exists(g, s.tile, gt));
                            assert(g.in_bounds(gt)) by {
                                if p@.len() > 1 {
                                    assert(g.passable(p@[p@.len() - 1]));
                                }
                            }
                            world.blobs.push(Blob { team: s.team, tile: s.tile, path: p, path_index: 0 });
                        },
                        None => {},
                    }
                },
                None => {},
            }
            world.spawners.set(
                i,
                BlobSpawn { team: s.team, tile: s.tile, interval: s.interval, timer: s.interval },
            );
        } else {
            world.spawners.set(
                i,
                BlobSpawn { team: s.team, tile: s.tile, interval: s.interval, timer: s.timer - 1 },
            );
        }
        proof {
            let sub = sp0.subrange(0, i + 1);
            assert(sub.drop_last() =~= sp0.subrange(0, i as int));
            assert(sub.last() == sp0[i as int]);
            let made1 = spawned(g, goals, sub);
            match spawn_of(g, goals, sp0[i as int]) {
                Some(x) => {
                    assert(made1 =~= made0 + seq![x]);
                    assert(world.blobs@ =~= blobs_before.push(world.blobs@.last()));
                },
                None => {
                    assert(made1 =~= made0);
                    assert(world.blobs@ == blobs_before);
                },
            }
        }
        i += 1;
    }
    proof {
        assert(sp0.subrange(0, sp0.len() as int) =~= sp0);
        assert(world.spawners@ =~= sp0.map_values(|s: BlobSpawn| ticked(s)));
        assert forall|k: int| 0 <= k < world.spawners@.len() implies #[trigger] world.spawners@[k].wf() by {
            assert(sp0[k].wf());
        }
        let made = spawned(g, goals, sp0);
        assert forall|m: int| 0 <= m < world.blobs@.len() implies #[trigger] world.blobs@[m]@.wf() by {
            if m >= b0.len() {
                assert(made_blob(g, world.blobs@[b0.len() + (m - b0.len())]@, made[m - b0.len()]));
            } else {
                assert(b0[m]@.wf());
            }
        }
    }
    Ok(())
}

/// Lets every pad's pulse decay by `dt` microseconds (not below zero); a pad whose team's action
/// is active restarts its pulse and fires a trigger at its tile.
pub fn pad_update(dt: u64, keys: &TeamKeys, world: &mut World)
    requires
        old(world).wf(),
    ensures
        final(world).wf(),
        final(world).pads@ == old(world).pads@.map_values(|p: Pad| pad_after(p, dt, *keys)),
        final(world).triggers@ == old(world).triggers@ + fired(old(world).pads@, *keys),
        final(world).spawners@ == old(world).spawners@,
        final(world).goals@ == old(world).goals@,
        final(world).blobs@ == old(world).blobs@,
        final(world).walls@ == old(world).walls@,
{
    let ghost p0 = world.pads@;
    let ghost t0 = world.triggers@;
    let mut i: usize = 0;
    assert(fired(p0.subrange(0, 0), *keys) =~= Seq::empty());
    assert(t0 + fired(p0.subrange(0, 0), *keys) =~= t0);
    while i < world.pads.len()
        invariant
            0 <= i <= p0.len(),
            world.pads@.len() == p0.len(),
            forall|k: int| 0 <= k < i ==> #[trigger] world.pads@[k] == pad_after(p0[k], dt, *keys),
            forall|k: int| i <= k < p0.len() ==> #[trigger] world.pads@[k] == p0[k],
            world.triggers@ == t0 + fired(p0.subrange(0, i as int), *keys),
            world.spawners@ == old(world).spawners@,
            world.goals@ == old(world).goals@,
            world.blobs@ == old(world).blobs@,
            world.walls@ == old(world).walls@,
            old(world).wf(),
        decreases p0.len() - i,
    {
        let p = world.pads[i];
        assert(p == p0[i as int]);
        let ghost trig_before = world.triggers@;
        let mut timer: u64 = if p.pulse_timer >= dt {
            p.pulse_timer - dt
        } else {
            0
        };
        if keys.pressed(p.team) {
            world.triggers.push(p.tile);
            timer = PAD_PULSE_TIME;
        }
        world.pads.set(i, Pad { team: p.team, tile: p.tile, pulse_timer: timer });
        proof {
            let sub = p0.subrange(0, i + 1);
            assert(sub.drop_last() =~= p0.subrange(0, i as int));
            assert(sub.last() == p0[i as int]);
            if keys.spec_pressed(p.team) {
                assert(world.triggers@ =~= t0 + fired(sub, *keys));
            } else {
                assert(world.triggers@ =~= t0 + fired(sub, *keys));
            }
        }
        i += 1;
    }
    proof {
        assert(p0.subrange(0, p0.len() as int) =~= p0);
        assert(world.pads@ =~= p0.map_values(|p: Pad| pad_after(p, dt, *keys)));
    }
}

fn contains_tile(v: &Vec<Tile>, t: Tile) -> (r: bool)
    ensures
        r == v@.contains(t),
{
    let mut i: usize = 0;
    while i < v.len()
        invariant
            0 <= i <= v@.len(),
            forall|k: int| 0 <= k < i ==> v@[k] != t,
        decreases v@.len() - i,
    {
        if v[i].0 == t.0 && v[i].1 == t.1 {
            assert(v@[i as int] == t);
            return true;
        }
        i += 1;
    }
    false
}

/// The tile of the first goal of `team`.
fn find_goal(goals: &Vec<BlobGoal>, team: PadTeam) -> (r: Option<Tile>)
    ensures
        r == goal_of(goals@, team),
{
    let mut i: usize = 0;
    assert(goals@.subrange(0, goals@.len() as int) =~= goals@);
    while i < goals.len()
        invariant
            0 <= i <= goals@.len(),
            goal_of(goals@, team) == goal_of(goals@.subrange(i as int, goals@.len() as int), team),
        decreases goals@.len() - i,
    {
        let ghost s = goals@.subrange(i as int, goals@.len() as int);
        assert(s.subrange(1, s.len() as int) =~= goals@.subrange(i + 1, goals@.len() as int));
        if goals[i].team == team {
            return Some(goals[i].tile);
        }
        i += 1;
    }
    None
}

/// A blob made at the start of a path of `n` tiles is still there after `n - 1` beats of
/// movement, standing on tile `k` of its path after `k` of them, and is gone after the `n`-th.
pub proof fn lemma_blob_lifetime(b: BlobView, k: nat)
    requires
        b.wf(),
        b.path_index == 0,
    ensures
        step_blob_n(b, k) is Some <==> k < b.path.len(),
        k < b.path.len() ==> step_blob_n(b, k) == Some(
            BlobView { team: b.team, tile: b.path[k as int], path: b.path, path_index: k as int },
        ),
    decreases k,
{
    if k > 0 {
        lemma_blob_lifetime(b, (k - 1) as nat);
    }
}

/// One beat of movement applies [`step_blob`] to each blob on its own: a blob alone in the
/// world comes out as its step, or not at all.
pub proof fn lemma_moved_single(b: BlobView)
    ensures
        moved(seq![b]) == match step_blob(b) {
            Some(c) => seq![c],
            None => Seq::<BlobView>::empty(),
        },
{
    assert(seq![b].drop_last() =~= Seq::<BlobView>::empty());
    assert(Seq::<BlobView>::empty().filter_map(|b: BlobView| step_blob(b)) =~= Seq::<BlobView>::empty());
    match step_blob(b) {
        Some(c) => {
            assert(Seq::<BlobView>::empty() + seq![c] =~= seq![c]);
        },
        None => {},
    }
}

/// The blobs after `j` beats of movement.
pub open spec fn moved_n(s: Seq<BlobView>, j: nat) -> Seq<BlobView>
    decreases j,
{
    if j == 0 {
        s
    } else {
        moved(moved_n(s, (j - 1) as nat))
    }
}

/// One beat of movement keeps the step of every blob that has one.
pub proof fn lemma_moved_keeps_step(s: Seq<BlobView>, b: BlobView)
    requires
        s.contains(b),
        step_blob(b) is Some,
    ensures
        moved(s).contains(step_blob(b)->Some_0),
    decreases s.len(),
{
    let f = |x: BlobView| step_blob(x);
    let c = step_blob(b)->Some_0;
    let rest = s.drop_last();
    if s.last() == b {
        assert(moved(s) == rest.filter_map(f) + seq![c]);
        assert(moved(s)[moved(s).len() - 1] == c);
    } else {
        let i = choose|i: int| 0 <= i < s.len() && s[i] == b;
        assert(rest[i] == b);
        lemma_moved_keeps_step(rest, b);
        let k = choose|k: int| 0 <= k < moved(rest).len() && moved(rest)[k] == c;
        match step_blob(s.last()) {
            Some(d) => {
                assert(moved(s) == moved(rest) + seq![d]);
                assert(moved(s)[k] == c);
            },
            None => {
                assert(moved(s) == moved(rest));
            },
        }
    }
}

/// Among any number of blobs, a blob is still there after `j` beats of movement, `j` tiles
/// further along its path, as long as its path is long enough.
pub proof fn lemma_moved_n_keeps(s: Seq<BlobView>, b: BlobView, j: nat)
    requires
        s.contains(b),
        step_blob_n(b, j) is Some,
    ensures
        moved_n(s, j).contains(step_blob_n(b, j)->Some_0),
    decreases j,
{
    if j > 0 {
        let p = (j - 1) as nat;
        lemma_moved_n_keeps(s, b, p);
        lemma_moved_keeps_step(moved_n(s, p), step_blob_n(b, p)->Some_0);
    }
}

/// Every blob present after `j` beats of movement is `j` steps of a blob that was there before.
pub proof fn lemma_moved_n_origin(s: Seq<BlobView>, c: BlobView, j: nat)
    requires
        moved_n(s, j).contains(c),
    ensures
        exists|b: BlobView| #[trigger] s.contains(b) && step_blob_n(b, j) == Some(c),
    decreases j,
{
    if j == 0 {
        assert(s.contains(c) && step_blob_n(c, 0) == Some(c));
    } else {
        let p = (j - 1) as nat;
        let prev = moved_n(s, p);
        prev.lemma_filter_map_contains(|x: BlobView| step_blob(x), c);
        let m = choose|m: BlobView| #[trigger] prev.contains(m) && step_blob(m) == Some(c);
        lemma_moved_n_origin(s, m, p);
        let b = choose|b: BlobView| #[trigger] s.contains(b) && step_blob_n(b, p) == Some(m);
        assert(step_blob_n(b, j) == Some(c));
    }
}

/// Among any number of blobs, a blob made at the start of a path of `n` tiles stands on tile
/// `j` of it after `j < n` beats of movement, and after `n` beats nothing in the world descends
/// from it.
pub proof fn lemma_blob_lifetime_among(s: Seq<BlobView>, b: BlobView, j: nat)
    requires
        s.contains(b),
        b.wf(),
        b.path_index == 0,
    ensures
        j < b.path.len() ==> moved_n(s, j).contains(
            BlobView { team: b.team, tile: b.path[j as int], path: b.path, path_index: j as int },
        ),
        j >= b.path.len() ==> step_blob_n(b, j) is None,
{
    lemma_blob_lifetime(b, j);
    if j < b.path.len() {
        lemma_moved_n_keeps(s, b, j);
    }
}

/// Trigger resolution removes a blob that stands on a trigger's tile and keeps one whose tile
/// has no trigger.
pub proof fn lemma_trigger_capture(blobs: Seq<BlobView>, triggers: Seq<Tile>, i: int)
    requires
        0 <= i < blobs.len(),
    ensures
        triggers.contains(blobs[i].tile) ==> !survivors(blobs, triggers).contains(blobs[i]),
        !triggers.contains(blobs[i].tile) ==> survivors(blobs, triggers).contains(blobs[i]),
{
    let pred = |b: BlobView| !triggers.contains(b.tile);
    if survivors(blobs, triggers).contains(blobs[i]) {
        let j = choose|j: int|
            0 <= j < blobs.filter(pred).len() && blobs.filter(pred)[j] == blobs[i];
        blobs.lemma_filter_pred(pred, j);
    }
    if !triggers.contains(blobs[i].tile) {
        blobs.lemma_filter_contains(pred, i);
    }
}

} // verus!
