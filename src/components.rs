use vstd::prelude::*;

use crate::grid::Tile;

verus! {

/// The four teams; each owns a pad, a spawner and a goal.
#[derive(Clone, Copy, PartialEq, Eq, Structural, Debug)]
pub enum PadTeam {
    Blue,
    Red,
    Green,
    Yellow,
}

/// Which team's trigger action is active this frame.
#[derive(Clone, Copy, PartialEq, Eq, Structural, Debug)]
pub struct TeamKeys {
    pub blue: bool,
    pub red: bool,
    pub green: bool,
    pub yellow: bool,
}

impl TeamKeys {
    pub open spec fn spec_pressed(self, team: PadTeam) -> bool {
        match team {
            PadTeam::Blue => self.blue,
            PadTeam::Red => self.red,
            PadTeam::Green => self.green,
            PadTeam::Yellow => self.yellow,
        }
    }

    pub fn pressed(&self, team: PadTeam) -> (r: bool)
        ensures
            r == self.spec_pressed(team),
    {
        match team {
            PadTeam::Blue => self.blue,
            PadTeam::Red => self.red,
            PadTeam::Green => self.green,
            PadTeam::Yellow => self.yellow,
        }
    }
}

/// A team's trigger source at a fixed tile. `pulse_timer` counts down, in time units, from the
/// pulse duration after each firing.
#[derive(Clone, Copy, Debug)]
pub struct Pad {
    pub team: PadTeam,
    pub tile: Tile,
    pub pulse_timer: u64,
}

/// Makes a blob every `interval` beats; `timer` is the number of beats until the next one.
#[derive(Clone, Copy, Debug)]
pub struct BlobSpawn {
    pub team: PadTeam,
    pub tile: Tile,
    pub interval: i32,
    pub timer: i32,
}

impl BlobSpawn {
    pub open spec fn wf(self) -> bool {
        1 <= self.timer <= self.interval
    }
}

/// Where a team's blobs are headed.
#[derive(Clone, Copy, Debug)]
pub struct BlobGoal {
    pub team: PadTeam,
    pub tile: Tile,
}

/// A token travelling along `path`; it stands on `path[path_index]`.
#[derive(Debug)]
pub struct Blob {
    pub team: PadTeam,
    pub tile: Tile,
    pub path: Vec<Tile>,
    pub path_index: usize,
}

pub ghost struct BlobView {
    pub team: PadTeam,
    pub tile: Tile,
    pub path: Seq<Tile>,
    pub path_index: int,
}

impl View for Blob {
    type V = BlobView;

    open spec fn view(&self) -> BlobView {
        BlobView {
            team: self.team,
            tile: self.tile,
            path: self.path@,
            path_index: self.path_index as int,
        }
    }
}

impl BlobView {
    pub open spec fn wf(self) -> bool {
        0 <= self.path_index < self.path.len() && self.tile == self.path[self.path_index]
    }
}

pub open spec fn blob_views(s: Seq<Blob>) -> Seq<BlobView> {
    s.map_values(|b: Blob| b@)
}

impl Blob {
    /// The two path tiles that the rendered position moves between during the current beat:
    /// in the first half from the previous tile toward the current one, in the second half from
    /// the current tile toward the next (both clamped to the path).
    pub fn tween_segment(&self, second_half: bool) -> (r: (Tile, Tile))
        requires
            self@.wf(),
        ensures
            !second_half ==> r == (
                self.path@[if self.path_index >= 1 { self.path_index - 1 } else { 0 }],
                self.path@[self.path_index as int],
            ),
            second_half ==> r == (
                self.path@[self.path_index as int],
                self.path@[if self.path_index + 1 < self.path@.len() { self.path_index + 1 } else { self.path_index as int }],
            ),
    {
        let i = self.path_index;
        if !second_half {
            let prev = if i >= 1 {
                i - 1
            } else {
                0
            };
            (self.path[prev], self.path[i])
        } else {
            let next = if i < self.path.len() - 1 {
                i + 1
            } else {
                i
            };
            (self.path[i], self.path[next])
        }
    }
}

} // verus!
