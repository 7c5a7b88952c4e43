use vstd::prelude::*;

use crate::chunk::{BakedLayer, ChunkPos, LAYER_COUNT};

verus! {

/// One queued update: a chunk position and the baked layers that
/// meshing produced for it, in layer-slot order.
pub type ChunkUpdateData = (ChunkPos, Vec<BakedLayer>);

/// The renderer's update queue, carrying chunk updates from meshing
/// producers to the one consumer that applies them.  Modelled as the
/// exact sequence of pending messages in enqueue order: sending
/// appends, draining takes everything at once, and no message is ever
/// dropped or reordered.
pub struct UpdateChannel {
    pending: Vec<ChunkUpdateData>,
}

impl View for UpdateChannel {
    type V = Seq<ChunkUpdateData>;

    closed spec fn view(&self) -> Seq<ChunkUpdateData> {
        self.pending@
    }
}

impl UpdateChannel {
    /// Every queued message fits the fixed layer slots.
    pub open spec fn wf(self) -> bool {
        forall|k: int| 0 <= k < self@.len() ==> (#[trigger] self@[k]).1@.len() <= LAYER_COUNT
    }

    /// A fresh, empty queue; each renderer owns its own.
    pub fn new() -> (r: UpdateChannel)
        ensures
            r.wf(),
            r@.len() == 0,
    {
        UpdateChannel { pending: Vec::new() }
    }

    /// Enqueue one update.  Never blocks, never fails, never drops.
    pub fn send(&mut self, pos: ChunkPos, layers: Vec<BakedLayer>)
        requires
            old(self).wf(),
            layers@.len() <= LAYER_COUNT,
        ensures
            final(self).wf(),
            final(self)@ == old(self)@.push((pos, layers)),
    {
        self.pending.push((pos, layers));
        proof {
            assert forall|k: int|
                0 <= k < self@.len() implies (#[trigger] self@[k]).1@.len() <= LAYER_COUNT by {
                if k < old(self)@.len() {
                    assert(self@[k] == old(self)@[k]);
                }
            }
        }
    }

    /// Number of pending messages.
    pub fn len(&self) -> (r: usize)
        ensures
            r == self@.len(),
    {
        self.pending.len()
    }

    /// Take every message currently pending, in enqueue order, and
    /// leave the queue empty.  Non-blocking: an empty queue yields an
    /// empty batch.
    pub fn drain(&mut self) -> (msgs: Vec<ChunkUpdateData>)
        ensures
            final(self)@.len() == 0,
            msgs@ == old(self)@,
    {
        let mut msgs: Vec<ChunkUpdateData> = Vec::new();
        core::mem::swap(&mut msgs, &mut self.pending);
        msgs
    }
}

} // verus!
