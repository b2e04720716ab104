use vstd::prelude::*;

use crate::components::{Blob, BlobGoal, BlobSpawn, Pad};
use crate::grid::Tile;

verus! {

/// The entity store: one container per kind of entity.
pub struct World {
    pub pads: Vec<Pad>,
    pub spawners: Vec<BlobSpawn>,
    pub goals: Vec<BlobGoal>,
    pub blobs: Vec<Blob>,
    /// Tiles of the triggers fired this frame.
    pub triggers: Vec<Tile>,
    pub walls: Vec<Tile>,
}

impl World {
    /// Every spawner's countdown lies in `1..=interval` and every blob stands on its path.
    pub open spec fn wf(&self) -> bool {
        &&& forall|i: int| 0 <= i < self.spawners@.len() ==> #[trigger] self.spawners@[i].wf()
        &&& forall|i: int| 0 <= i < self.blobs@.len() ==> #[trigger] self.blobs@[i]@.wf()
    }

    pub fn new() -> (w: World)
        ensures
            w.wf(),
            w.pads@.len() == 0,
            w.spawners@.len() == 0,
            w.goals@.len() == 0,
            w.blobs@.len() == 0,
            w.triggers@.len() == 0,
            w.walls@.len() == 0,
    {
        World {
            pads: Vec::new(),
            spawners: Vec::new(),
            goals: Vec::new(),
            blobs: Vec::new(),
            triggers: Vec::new(),
            walls: Vec::new(),
        }
    }
}

} // verus!
