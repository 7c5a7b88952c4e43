use vstd::pervasive::VecAdditionalExecFns;
use vstd::prelude::*;

verus! {

/// In-memory image of the GPU-side animated-texture data buffer: a
/// stable identity plus the full buffer contents.  `contents.len()` is
/// the allocated size; an upload smaller than it leaves surplus bytes
/// in place.
pub struct AnimatedBuffer {
    pub id: u64,
    pub contents: Vec<u8>,
}

/// Binding object exposing an animated buffer to rendering passes.
/// Created together with its buffer, never independently.
pub struct AnimatedBindGroup {
    pub buffer_id: u64,
}

/// Renderer-owned Minecraft scene resources; here, the lazily created
/// animated-texture buffer and its binding.
pub struct MinecraftState {
    pub animated_block_buffer: Option<AnimatedBuffer>,
    pub animated_block_bind_group: Option<AnimatedBindGroup>,
}

/// Effect of one upload of `data`: afterwards buffer and binding exist
/// as one unit and the buffer's first bytes hold `data` in full.  A
/// first upload sizes the buffer exactly to the data; an upload that
/// fits the existing buffer reuses it in place, keeping its identity
/// and surplus bytes; a larger upload republishes a new buffer, again
/// sized exactly, under a fresh identity.
pub open spec fn uploaded(pre: MinecraftState, post: MinecraftState, data: Seq<u8>) -> bool {
    &&& post.animated_block_buffer is Some
    &&& post.animated_block_bind_group is Some
    &&& post.animated_block_bind_group->Some_0.buffer_id == post.animated_block_buffer->Some_0.id
    &&& data.len() <= post.animated_block_buffer->Some_0.contents@.len()
    &&& post.animated_block_buffer->Some_0.contents@.subrange(0, data.len() as int) == data
    &&& match pre.animated_block_buffer {
        Option::None => post.animated_block_buffer->Some_0.contents@.len() == data.len(),
        Option::Some(b) => {
            if data.len() <= b.contents@.len() {
                &&& post.animated_block_buffer->Some_0.id == b.id
                &&& post.animated_block_buffer->Some_0.contents@.len() == b.contents@.len()
                &&& forall|k: int|
                    data.len() <= k < b.contents@.len()
                        ==> post.animated_block_buffer->Some_0.contents@[k] == b.contents@[k]
            } else {
                &&& post.animated_block_buffer->Some_0.id != b.id
                &&& post.animated_block_buffer->Some_0.contents@.len() == data.len()
            }
        },
    }
}

impl MinecraftState {
    /// Buffer and binding are absent together or present together, and
    /// a present binding wraps exactly the present buffer.
    pub open spec fn wf(self) -> bool {
        match (self.animated_block_buffer, self.animated_block_bind_group) {
            (Option::Some(b), Option::Some(g)) => g.buffer_id == b.id,
            (Option::None, Option::None) => true,
            _ => false,
        }
    }

    /// Fresh state: no animated resource yet; consumers must treat
    /// that as "not yet available", not as an error.
    pub fn new() -> (r: MinecraftState)
        ensures
            r.wf(),
            r.animated_block_buffer is None,
            r.animated_block_bind_group is None,
    {
        MinecraftState { animated_block_buffer: None, animated_block_bind_group: None }
    }
}

impl AnimatedBuffer {
    /// Full write of `data` into the buffer's first bytes, in place.
    pub fn write(&mut self, data: &Vec<u8>)
        requires
            data@.len() <= old(self).contents@.len(),
        ensures
            final(self).id == old(self).id,
            final(self).contents@.len() == old(self).contents@.len(),
            final(self).contents@.subrange(0, data@.len() as int) == data@,
            forall|k: int|
                data@.len() <= k < old(self).contents@.len() ==> final(self).contents@[k] == old(
                    self,
                ).contents@[k],
    {
        let ghost pre = self.contents@;
        let mut t: usize = 0;
        while t < data.len()
            invariant
                t <= data@.len(),
                data@.len() <= pre.len(),
                self.contents@.len() == pre.len(),
                self.id == old(self).id,
                pre == old(self).contents@,
                forall|k: int| 0 <= k < t ==> self.contents@[k] == data@[k],
                forall|k: int| t <= k < pre.len() ==> self.contents@[k] == pre[k],
            decreases data@.len() - t,
        {
            self.contents.set(t, data[t]);
            t = t + 1;
        }
        proof {
            assert(self.contents@.subrange(0, data@.len() as int) =~= data@);
        }
    }
}

} // verus!
