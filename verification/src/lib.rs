//! Core of a Minecraft-style terrain renderer: meshing workers enqueue
//! freshly baked chunk geometry, the render thread drains the queue
//! once per cycle and streams the bytes into one shared chunk buffer
//! whose ranges a verified sub-allocator keeps disjoint, and a lazily
//! created animated-texture buffer is published together with its
//! binding, as one unit.  GPU devices, surfaces and windows stay
//! outside this crate; the two buffers are modelled byte for byte.

pub mod allocator;
pub mod animated;
pub mod buffer;
pub mod channel;
pub mod chunk;
pub mod range;
pub mod storage;

use vstd::prelude::*;

use crate::allocator::SpaceError;
use crate::animated::{uploaded, AnimatedBindGroup, AnimatedBuffer, MinecraftState};
use crate::buffer::{written, ChunkBuffer};
use crate::channel::{ChunkUpdateData, UpdateChannel};
use crate::chunk::{
    layers_total_bytes, lemma_layers_total_from_nonneg, section_matches, section_owns,
    section_self_disjoint, slot_matches, BakedLayer, ChunkPos, LAYER_COUNT,
};
use crate::range::{spans_disjoint, RangeDescriptor};
use crate::storage::{stored_owns, SectionStorage};

verus! {

/// Size of the presentation surface, in pixels.
#[derive(Copy, Clone, PartialEq, Eq, Structural, Debug)]
pub struct WindowSize {
    pub width: u32,
    pub height: u32,
}

/// Anything that can report the size of the window it draws to.
pub trait HasWindowSize {
    fn get_window_size(&self) -> WindowSize;
}

/// The scene objects this core mutates: the section table with its
/// range allocator, and the chunk buffer those ranges index into.
pub struct Scene {
    pub section_storage: SectionStorage,
    pub chunk_buffer: ChunkBuffer,
}

impl Scene {
    /// A fresh scene whose chunk buffer may grow to `max_capacity`
    /// bytes.
    pub fn new(max_capacity: usize) -> (r: Scene)
        ensures
            r.section_storage.wf(),
            r.section_storage@ == Map::<ChunkPos, Seq<Option<RangeDescriptor>>>::empty(),
            r.section_storage.cap_spec() == 0,
            r.section_storage.max_spec() == max_capacity as int,
            r.chunk_buffer.data@.len() == 0,
    {
        Scene {
            section_storage: SectionStorage::new(max_capacity),
            chunk_buffer: ChunkBuffer::new(),
        }
    }
}

/// Some message of the batch is for position `p`.
pub open spec fn batch_has(msgs: Seq<ChunkUpdateData>, p: ChunkPos) -> bool {
    exists|k: int| 0 <= k < msgs.len() && (#[trigger] msgs[k]).0 == p
}

/// The layers of the batch's last message for `p`: a later update for
/// a position fully supersedes an earlier one.
pub open spec fn last_layers(msgs: Seq<ChunkUpdateData>, p: ChunkPos) -> Seq<BakedLayer>
    decreases msgs.len(),
{
    if msgs.len() == 0 {
        Seq::empty()
    } else if msgs.last().0 == p {
        msgs.last().1@
    } else {
        last_layers(msgs.drop_last(), p)
    }
}

/// Bytes that the batch's messages from index `k` on must claim.
pub open spec fn batch_total_from(msgs: Seq<ChunkUpdateData>, k: int) -> int
    decreases msgs.len() - k,
{
    if 0 <= k < msgs.len() {
        layers_total_bytes(msgs[k].1@) + batch_total_from(msgs, k + 1)
    } else {
        0
    }
}

/// Bytes the whole batch must claim, at most.
pub open spec fn batch_total(msgs: Seq<ChunkUpdateData>) -> int {
    batch_total_from(msgs, 0)
}

proof fn lemma_batch_total_from_nonneg(msgs: Seq<ChunkUpdateData>, k: int)
    ensures
        batch_total_from(msgs, k) >= 0,
    decreases msgs.len() - k,
{
    if 0 <= k < msgs.len() {
        lemma_layers_total_from_nonneg(msgs[k].1@, 0);
        lemma_batch_total_from_nonneg(msgs, k + 1);
    }
}

/// Slot `t` of the section holds, at its two ranges in the buffer,
/// exactly its layer's vertex and index bytes.
pub open spec fn slot_loaded(
    sec: Seq<Option<RangeDescriptor>>,
    layers: Seq<BakedLayer>,
    t: int,
    buf: Seq<u8>,
) -> bool {
    &&& 0 <= t < layers.len()
    &&& sec[t]->Some_0.vertex_range.start + sec[t]->Some_0.vertex_range.len <= buf.len()
    &&& sec[t]->Some_0.index_range.start + sec[t]->Some_0.index_range.len <= buf.len()
    &&& buf.subrange(
        sec[t]->Some_0.vertex_range.start as int,
        sec[t]->Some_0.vertex_range.start + sec[t]->Some_0.vertex_range.len,
    ) == layers[t].vertices@
    &&& buf.subrange(
        sec[t]->Some_0.index_range.start as int,
        sec[t]->Some_0.index_range.start + sec[t]->Some_0.index_range.len,
    ) == layers[t].indices@
}

/// Every occupied slot of the section is loaded in the buffer.
pub open spec fn section_loaded(
    sec: Seq<Option<RangeDescriptor>>,
    layers: Seq<BakedLayer>,
    buf: Seq<u8>,
) -> bool {
    forall|t: int| 0 <= t < sec.len() && (#[trigger] sec[t]) is Some ==> slot_loaded(
        sec,
        layers,
        t,
        buf,
    )
}

/// Effect of one applied update on a scene: `pos` now holds a section
/// shaped by `layers` and loaded with their bytes; other positions'
/// sections are untouched, as is every buffer byte outside the new
/// section's ranges.
pub open spec fn update_applied(
    pre: Scene,
    post: Scene,
    pos: ChunkPos,
    layers: Seq<BakedLayer>,
) -> bool {
    &&& post.section_storage@.dom() == pre.section_storage@.dom().insert(pos)
    &&& section_matches(post.section_storage@[pos], layers)
    &&& section_loaded(post.section_storage@[pos], layers, post.chunk_buffer.data@)
    &&& forall|p: ChunkPos| #![trigger post.section_storage@[p]]
        pre.section_storage@.contains_key(p) && p != pos ==> post.section_storage@[p]
            == pre.section_storage@[p]
    &&& forall|a: int| #![trigger post.chunk_buffer.data@[a]]
        0 <= a < pre.chunk_buffer.data@.len() && !section_owns(post.section_storage@[pos], a)
            ==> post.chunk_buffer.data@[a] == pre.chunk_buffer.data@[a]
}

/// Effect of applying a whole batch, in order: every position of the
/// batch holds a section shaped by and loaded with its last message's
/// layers; every other position's section, and its bytes in the
/// buffer, are untouched.
pub open spec fn applied_batch(msgs: Seq<ChunkUpdateData>, pre: Scene, post: Scene) -> bool {
    &&& forall|p: ChunkPos|
        #![trigger post.section_storage@.contains_key(p)]
        #![trigger pre.section_storage@.contains_key(p)]
        #![trigger batch_has(msgs, p)]
        post.section_storage@.contains_key(p) <==> (pre.section_storage@.contains_key(p)
            || batch_has(msgs, p))
    &&& forall|p: ChunkPos| #![trigger batch_has(msgs, p)]
        batch_has(msgs, p) ==> post.section_storage@.contains_key(p) && section_matches(
            post.section_storage@[p],
            last_layers(msgs, p),
        ) && section_loaded(post.section_storage@[p], last_layers(msgs, p), post.chunk_buffer.data@)
    &&& forall|p: ChunkPos| #![trigger post.section_storage@[p]]
        pre.section_storage@.contains_key(p) && !batch_has(msgs, p) ==> post.section_storage@[p]
            == pre.section_storage@[p]
    &&& forall|p: ChunkPos, a: int| #![trigger section_owns(pre.section_storage@[p], a)]
        pre.section_storage@.contains_key(p) && !batch_has(msgs, p) && section_owns(
            pre.section_storage@[p],
            a,
        ) && 0 <= a < pre.chunk_buffer.data@.len() ==> a < post.chunk_buffer.data@.len()
            && post.chunk_buffer.data@[a] == pre.chunk_buffer.data@[a]
    &&& post.chunk_buffer.data@.len() >= pre.chunk_buffer.data@.len()
}

/// Writing slot `j`'s vertex bytes and then its index bytes keeps
/// every earlier slot loaded, loads slot `j`, and touches no byte the
/// section does not own.
proof fn lemma_slot_write_effect(
    sec: Seq<Option<RangeDescriptor>>,
    layers: Seq<BakedLayer>,
    j: int,
    b0: Seq<u8>,
    b1: Seq<u8>,
    b2: Seq<u8>,
    base: Seq<u8>,
)
    requires
        section_self_disjoint(sec),
        0 <= j < sec.len(),
        (sec[j]) is Some,
        slot_matches(sec[j], layers, j),
        0 <= j < layers.len(),
        written(b0, b1, sec[j]->Some_0.vertex_range.start as int, layers[j].vertices@),
        written(b1, b2, sec[j]->Some_0.index_range.start as int, layers[j].indices@),
        base.len() <= b0.len(),
        forall|t: int|
            0 <= t < j && (#[trigger] sec[t]) is Some ==> slot_loaded(sec, layers, t, b0),
        forall|a: int| #![trigger b0[a]]
            0 <= a < b0.len() && !section_owns(sec, a) ==> (a < base.len() ==> b0[a] == base[a])
                && (a >= base.len() ==> b0[a] == 0),
    ensures
        b0.len() <= b2.len(),
        forall|t: int|
            0 <= t <= j && (#[trigger] sec[t]) is Some ==> slot_loaded(sec, layers, t, b2),
        forall|a: int| #![trigger b2[a]]
            0 <= a < b2.len() && !section_owns(sec, a) ==> (a < base.len() ==> b2[a] == base[a])
                && (a >= base.len() ==> b2[a] == 0),
{
    let rd = sec[j]->Some_0;
    let vr = rd.vertex_range;
    let ir = rd.index_range;
    assert(vr.len == layers[j].vertices@.len());
    assert(ir.len == layers[j].indices@.len());
    assert(spans_disjoint(vr, ir));
    assert(b0.len() <= b1.len() <= b2.len());
    assert(vr.start + vr.len <= b1.len());
    assert(ir.start + ir.len <= b2.len());

    // earlier slots stay loaded: their spans avoid both write targets
    assert forall|t: int|
        0 <= t < j && (#[trigger] sec[t]) is Some implies slot_loaded(sec, layers, t, b2) by {
        let rt = sec[t]->Some_0;
        assert(spans_disjoint(rt.vertex_range, vr) && spans_disjoint(rt.vertex_range, ir)
            && spans_disjoint(rt.index_range, vr) && spans_disjoint(rt.index_range, ir));
        assert(slot_loaded(sec, layers, t, b0));
        assert(b2.subrange(rt.vertex_range.start as int, rt.vertex_range.start + rt.vertex_range.len)
            =~= layers[t].vertices@) by {
            assert forall|u: int|
                0 <= u < rt.vertex_range.len implies b2.subrange(
                rt.vertex_range.start as int,
                rt.vertex_range.start + rt.vertex_range.len,
            )[u] == layers[t].vertices@[u] by {
                assert(b0.subrange(
                    rt.vertex_range.start as int,
                    rt.vertex_range.start + rt.vertex_range.len,
                )[u] == layers[t].vertices@[u]);
            }
        }
        assert(b2.subrange(rt.index_range.start as int, rt.index_range.start + rt.index_range.len)
            =~= layers[t].indices@) by {
            assert forall|u: int|
                0 <= u < rt.index_range.len implies b2.subrange(
                rt.index_range.start as int,
                rt.index_range.start + rt.index_range.len,
            )[u] == layers[t].indices@[u] by {
                assert(b0.subrange(
                    rt.index_range.start as int,
                    rt.index_range.start + rt.index_range.len,
                )[u] == layers[t].indices@[u]);
            }
        }
    }

    // slot j is loaded: the vertex bytes survive the index write
    assert(b2.subrange(vr.start as int, vr.start + vr.len) =~= layers[j].vertices@) by {
        assert forall|u: int|
            0 <= u < vr.len implies b2.subrange(vr.start as int, vr.start + vr.len)[u]
            == layers[j].vertices@[u] by {
            assert(b1[vr.start + u] == layers[j].vertices@[u]);
            assert(b2[vr.start + u] == b1[vr.start + u]);
        }
    }
    assert(b2.subrange(ir.start as int, ir.start + ir.len) =~= layers[j].indices@) by {
        assert forall|u: int|
            0 <= u < ir.len implies b2.subrange(ir.start as int, ir.start + ir.len)[u]
            == layers[j].indices@[u] by {
            assert(b2[ir.start + u] == layers[j].indices@[u]);
        }
    }
    assert(slot_loaded(sec, layers, j, b2));

    // bytes the section does not own are untouched or zero-filled
    assert forall|a: int| #![trigger b2[a]]
        0 <= a < b2.len() && !section_owns(sec, a) implies (a < base.len() ==> b2[a] == base[a])
        && (a >= base.len() ==> b2[a] == 0) by {
        assert(!(vr.start <= a < vr.start + vr.len) && !(ir.start <= a < ir.start + ir.len)) by {
            if (vr.start <= a < vr.start + vr.len) || (ir.start <= a < ir.start + ir.len) {
                assert(section_owns(sec, a));
            }
        }
        if a < b0.len() {
            assert(b1[a] == b0[a]);
            assert(b2[a] == b1[a]);
        } else if a < b1.len() {
            assert(b1[a] == 0);
            assert(b2[a] == b1[a]);
        } else {
            assert(b2[a] == 0);
        }
    }
}

/// Extending a batch by its message `k` extends its positions by that
/// message's position, whose layers now decide `last_layers`.
proof fn lemma_batch_extend(batch: Seq<ChunkUpdateData>, k: int)
    requires
        0 <= k < batch.len(),
    ensures
        forall|p: ChunkPos| #![trigger batch_has(batch.take(k + 1), p)]
            batch_has(batch.take(k + 1), p) <==> (batch_has(batch.take(k), p) || batch[k].0 == p),
        forall|p: ChunkPos| #![trigger last_layers(batch.take(k + 1), p)]
            last_layers(batch.take(k + 1), p) == (if batch[k].0 == p {
                batch[k].1@
            } else {
                last_layers(batch.take(k), p)
            }),
{
    assert(batch.take(k + 1).drop_last() =~= batch.take(k));
    assert(batch.take(k + 1).last() == batch[k]);
    assert forall|p: ChunkPos| #![trigger batch_has(batch.take(k + 1), p)]
        batch_has(batch.take(k + 1), p) <==> (batch_has(batch.take(k), p) || batch[k].0
            == p) by {
        if batch_has(batch.take(k + 1), p) {
            let t = choose|t: int|
                0 <= t < batch.take(k + 1).len() && (#[trigger] batch.take(k + 1)[t]).0 == p;
            if t < k {
                assert(batch.take(k)[t] == batch.take(k + 1)[t]);
                assert(batch_has(batch.take(k), p));
            } else {
                assert(batch.take(k + 1)[t] == batch[k]);
            }
        }
        if batch_has(batch.take(k), p) {
            let t = choose|t: int|
                0 <= t < batch.take(k).len() && (#[trigger] batch.take(k)[t]).0 == p;
            assert(batch.take(k + 1)[t] == batch.take(k)[t]);
            assert(batch_has(batch.take(k + 1), p));
        }
        if batch[k].0 == p {
            assert((batch.take(k + 1)[k]).0 == p);
            assert(batch_has(batch.take(k + 1), p));
        }
    }
}

/// One more message applied on top of an applied batch prefix gives an
/// applied batch prefix one longer.
proof fn lemma_applied_batch_step(
    batch: Seq<ChunkUpdateData>,
    k: int,
    pre_scene: Scene,
    mid: Scene,
    post: Scene,
)
    requires
        0 <= k < batch.len(),
        applied_batch(batch.take(k), pre_scene, mid),
        update_applied(mid, post, batch[k].0, batch[k].1@),
        mid.chunk_buffer.data@.len() <= post.chunk_buffer.data@.len(),
        post.section_storage.wf(),
    ensures
        applied_batch(batch.take(k + 1), pre_scene, post),
{
    let pos = batch[k].0;
    let bh1 = batch.take(k + 1);
    lemma_batch_extend(batch, k);
    post.section_storage.lemma_live_sections_disjoint();

    assert forall|p: ChunkPos|
        #![trigger post.section_storage@.contains_key(p)]
        #![trigger pre_scene.section_storage@.contains_key(p)]
        #![trigger batch_has(bh1, p)]
        post.section_storage@.contains_key(p) <==> (pre_scene.section_storage@.contains_key(p)
            || batch_has(bh1, p)) by {
        assert(post.section_storage@.dom() == mid.section_storage@.dom().insert(pos));
        assert(post.section_storage@.contains_key(p) <==> (mid.section_storage@.contains_key(p)
            || p == pos));
    }

    assert forall|p: ChunkPos| #![trigger batch_has(bh1, p)]
        batch_has(bh1, p) implies post.section_storage@.contains_key(p) && section_matches(
        post.section_storage@[p],
        last_layers(bh1, p),
    ) && section_loaded(post.section_storage@[p], last_layers(bh1, p), post.chunk_buffer.data@) by {
        if p == pos {
            assert(last_layers(bh1, p) == batch[k].1@);
        } else {
            assert(batch_has(batch.take(k), p));
            assert(mid.section_storage@.contains_key(p));
            assert(post.section_storage@[p] == mid.section_storage@[p]);
            assert(last_layers(bh1, p) == last_layers(batch.take(k), p));
            let layers = last_layers(batch.take(k), p);
            let sec = mid.section_storage@[p];
            assert forall|t: int|
                0 <= t < sec.len() && (#[trigger] sec[t]) is Some implies slot_loaded(
                sec,
                layers,
                t,
                post.chunk_buffer.data@,
            ) by {
                assert(slot_loaded(sec, layers, t, mid.chunk_buffer.data@));
                let rt = sec[t]->Some_0;
                assert forall|a: int|
                    rt.vertex_range.start <= a < rt.vertex_range.start + rt.vertex_range.len
                        || rt.index_range.start <= a < rt.index_range.start
                        + rt.index_range.len implies post.chunk_buffer.data@[a]
                    == mid.chunk_buffer.data@[a] by {
                    assert(section_owns(sec, a)) by {
                        assert((sec[t]) is Some && (crate::range::span_has(
                            sec[t]->Some_0.vertex_range,
                            a,
                        ) || crate::range::span_has(sec[t]->Some_0.index_range, a)));
                    }
                    assert(stored_owns(post.section_storage, p, a));
                    assert(!stored_owns(post.section_storage, pos, a));
                    assert(!section_owns(post.section_storage@[pos], a));
                }
                assert(post.chunk_buffer.data@.subrange(
                    rt.vertex_range.start as int,
                    rt.vertex_range.start + rt.vertex_range.len,
                ) =~= layers[t].vertices@) by {
                    assert forall|u: int|
                        0 <= u < rt.vertex_range.len implies post.chunk_buffer.data@.subrange(
                        rt.vertex_range.start as int,
                        rt.vertex_range.start + rt.vertex_range.len,
                    )[u] == layers[t].vertices@[u] by {
                        assert(mid.chunk_buffer.data@.subrange(
                            rt.vertex_range.start as int,
                            rt.vertex_range.start + rt.vertex_range.len,
                        )[u] == layers[t].vertices@[u]);
                        assert(post.chunk_buffer.data@[rt.vertex_range.start + u]
                            == mid.chunk_buffer.data@[rt.vertex_range.start + u]);
                    }
                }
                assert(post.chunk_buffer.data@.subrange(
                    rt.index_range.start as int,
                    rt.index_range.start + rt.index_range.len,
                ) =~= layers[t].indices@) by {
                    assert forall|u: int|
                        0 <= u < rt.index_range.len implies post.chunk_buffer.data@.subrange(
                        rt.index_range.start as int,
                        rt.index_range.start + rt.index_range.len,
                    )[u] == layers[t].indices@[u] by {
                        assert(mid.chunk_buffer.data@.subrange(
                            rt.index_range.start as int,
                            rt.index_range.start + rt.index_range.len,
                        )[u] == layers[t].indices@[u]);
                        assert(post.chunk_buffer.data@[rt.index_range.start + u]
                            == mid.chunk_buffer.data@[rt.index_range.start + u]);
                    }
                }
            }
        }
    }

    assert forall|p: ChunkPos| #![trigger post.section_storage@[p]]
        pre_scene.section_storage@.contains_key(p) && !batch_has(
            bh1,
            p,
        ) implies post.section_storage@[p] == pre_scene.section_storage@[p] by {
        assert(p != pos);
        assert(mid.section_storage@[p] == pre_scene.section_storage@[p]);
        assert(mid.section_storage@.contains_key(p));
        assert(post.section_storage@[p] == mid.section_storage@[p]);
    }

    assert forall|p: ChunkPos, a: int| #![trigger section_owns(pre_scene.section_storage@[p], a)]
        pre_scene.section_storage@.contains_key(p) && !batch_has(bh1, p) && section_owns(
            pre_scene.section_storage@[p],
            a,
        ) && 0 <= a < pre_scene.chunk_buffer.data@.len() implies a < post.chunk_buffer.data@.len()
        && post.chunk_buffer.data@[a] == pre_scene.chunk_buffer.data@[a] by {
        assert(p != pos);
        assert(a < mid.chunk_buffer.data@.len() && mid.chunk_buffer.data@[a]
            == pre_scene.chunk_buffer.data@[a]);
        assert(post.section_storage@[p] == pre_scene.section_storage@[p]);
        assert(post.section_storage@.contains_key(p));
        assert(stored_owns(post.section_storage, p, a));
        assert(!stored_owns(post.section_storage, pos, a));
        assert(!section_owns(post.section_storage@[pos], a));
        assert(post.chunk_buffer.data@[a] == mid.chunk_buffer.data@[a]);
    }
}

/// The main renderer state this core owns: the update queue shared
/// with meshing workers and the lazily created animated resource.
pub struct WmRenderer {
    pub mc: MinecraftState,
    pub chunk_update_queue: UpdateChannel,
}

impl WmRenderer {
    /// A renderer with its own fresh queue and no animated resource.
    pub fn new() -> (r: WmRenderer)
        ensures
            r.mc.wf(),
            r.mc.animated_block_buffer is None,
            r.mc.animated_block_bind_group is None,
            r.chunk_update_queue.wf(),
            r.chunk_update_queue@.len() == 0,
    {
        WmRenderer { mc: MinecraftState::new(), chunk_update_queue: UpdateChannel::new() }
    }

    /// Ensure the animated buffer and its binding exist and hold
    /// `data` in full.  Created lazily on first use, reused in place
    /// when the data fits, republished as one unit under a fresh
    /// identity when it does not.  To be called from the one render
    /// thread only: this check-then-create sequence must not race
    /// itself.
    pub fn upload_animated_block_buffer(&mut self, data: Vec<u8>)
        requires
            old(self).mc.wf(),
        ensures
            final(self).mc.wf(),
            final(self).chunk_update_queue == old(self).chunk_update_queue,
            uploaded(old(self).mc, final(self).mc, data@),
    {
        let ghost data_view = data@;
        let need_new = match &self.mc.animated_block_buffer {
            Option::None => true,
            Option::Some(b) => data.len() > b.contents.len(),
        };
        if need_new {
            let new_id: u64 = match &self.mc.animated_block_buffer {
                Option::None => 0,
                Option::Some(b) => if b.id == u64::MAX {
                    0
                } else {
                    b.id + 1
                },
            };
            self.mc.animated_block_buffer = Some(AnimatedBuffer { id: new_id, contents: data });
            self.mc.animated_block_bind_group = Some(AnimatedBindGroup { buffer_id: new_id });
            proof {
                assert(self.mc.animated_block_buffer->Some_0.contents@.subrange(
                    0,
                    data_view.len() as int,
                ) =~= data_view);
            }
        } else {
            match &mut self.mc.animated_block_buffer {
                Option::Some(b) => {
                    b.write(&data);
                },
                Option::None => {},
            }
        }
    }

    /// Drain the update queue and apply every message, in drain
    /// order: install each message's section and write its layers'
    /// bytes at the section's ranges in the chunk buffer.  An empty
    /// queue leaves the scene untouched.  On exhaustion of the chunk
    /// buffer the failing position is dropped and the error returned
    /// to the caller; the queue is drained either way.
    #[verifier::loop_isolation(false)]
    pub fn submit_chunk_updates(&mut self, scene: &mut Scene) -> (r: Result<(), SpaceError>)
        requires
            old(self).chunk_update_queue.wf(),
            old(scene).section_storage.wf(),
        ensures
            final(self).chunk_update_queue.wf(),
            final(self).chunk_update_queue@.len() == 0,
            final(self).mc == old(self).mc,
            final(scene).section_storage.wf(),
            final(scene).section_storage.max_spec() == old(scene).section_storage.max_spec(),
            old(self).chunk_update_queue@.len() == 0 ==> *final(scene) == *old(scene) && r is Ok,
            batch_total(old(self).chunk_update_queue@) <= old(scene).section_storage.max_spec()
                - old(scene).section_storage.cap_spec() ==> r is Ok,
            r is Ok ==> applied_batch(old(self).chunk_update_queue@, *old(scene), *final(scene)),
    {
        let msgs = self.chunk_update_queue.drain();
        let ghost batch = msgs@;
        let ghost pre_scene = *scene;
        let mut k: usize = 0;
        while k < msgs.len()
            invariant
                k <= batch.len(),
                scene.section_storage.wf(),
                scene.section_storage.max_spec() == pre_scene.section_storage.max_spec(),
                scene.section_storage.cap_spec() + batch_total_from(batch, k as int)
                    <= pre_scene.section_storage.cap_spec() + batch_total(batch),
                scene.chunk_buffer.data@.len() >= pre_scene.chunk_buffer.data@.len(),
                applied_batch(batch.take(k as int), pre_scene, *scene),
                k == 0 ==> *scene == pre_scene,
            decreases batch.len() - k,
        {
            let ghost mid = *scene;
            let pos = msgs[k].0;
            proof {
                assert(batch_total_from(batch, k as int) == layers_total_bytes(
                    batch[k as int].1@,
                ) + batch_total_from(batch, k as int + 1));
                lemma_batch_total_from_nonneg(batch, k as int + 1);
                lemma_layers_total_from_nonneg(batch[k as int].1@, 0);
            }
            match apply_update(scene, pos, &msgs[k].1) {
                Ok(_) => {},
                Err(e) => {
                    proof {
                        // the one message alone exceeded the headroom,
                        // so the whole batch could never have fit
                        assert(layers_total_bytes(batch[k as int].1@)
                            > mid.section_storage.max_spec() - mid.section_storage.cap_spec());
                        assert(batch_total(batch) > pre_scene.section_storage.max_spec()
                            - pre_scene.section_storage.cap_spec());
                    }
                    return Err(e);
                },
            }
            proof {
                lemma_applied_batch_step(batch, k as int, pre_scene, mid, *scene);
            }
            k = k + 1;
        }
        proof {
            assert(batch.take(batch.len() as int) =~= batch);
        }
        Ok(())
    }
}

/// Apply one update to the scene: install the new section for `pos`
/// and write each present layer's bytes at the section's fresh ranges.
#[verifier::loop_isolation(false)]
fn apply_update(scene: &mut Scene, pos: ChunkPos, layers: &Vec<BakedLayer>) -> (r: Result<
    (),
    SpaceError,
>)
    requires
        old(scene).section_storage.wf(),
        layers@.len() <= LAYER_COUNT,
    ensures
        final(scene).section_storage.wf(),
        final(scene).section_storage.max_spec() == old(scene).section_storage.max_spec(),
        old(scene).section_storage.cap_spec() <= final(scene).section_storage.cap_spec() <= old(
            scene,
        ).section_storage.cap_spec() + layers_total_bytes(layers@),
        layers_total_bytes(layers@) <= old(scene).section_storage.max_spec() - old(
            scene,
        ).section_storage.cap_spec() ==> r is Ok,
        final(scene).chunk_buffer.data@.len() >= old(scene).chunk_buffer.data@.len(),
        match r {
            Ok(_) => update_applied(*old(scene), *final(scene), pos, layers@),
            Err(_) => {
                &&& final(scene).section_storage@ == old(scene).section_storage@.remove(pos)
                &&& final(scene).chunk_buffer == old(scene).chunk_buffer
            },
        },
{
    let ghost pre = *scene;
    let sec = match scene.section_storage.replace(pos, layers) {
        Ok(s) => s,
        Err(e) => {
            return Err(e);
        },
    };
    let ghost secv = sec.layers@;
    let ghost s1 = *scene;
    proof {
        assert(scene.section_storage@[pos] == secv);
        assert(scene.section_storage@.dom() =~= pre.section_storage@.dom().insert(pos));
    }
    let mut j: usize = 0;
    while j < sec.layers.len()
        invariant
            j <= secv.len(),
            sec.layers@ == secv,
            scene.section_storage == s1.section_storage,
            scene.chunk_buffer.data@.len() >= s1.chunk_buffer.data@.len(),
            forall|t: int|
                0 <= t < j && (#[trigger] secv[t]) is Some ==> slot_loaded(
                    secv,
                    layers@,
                    t,
                    scene.chunk_buffer.data@,
                ),
            forall|a: int| #![trigger scene.chunk_buffer.data@[a]]
                0 <= a < scene.chunk_buffer.data@.len() && !section_owns(secv, a) ==> (a
                    < s1.chunk_buffer.data@.len() ==> scene.chunk_buffer.data@[a]
                    == s1.chunk_buffer.data@[a]) && (a >= s1.chunk_buffer.data@.len()
                    ==> scene.chunk_buffer.data@[a] == 0),
        decreases secv.len() - j,
    {
        if let Some(rd) = sec.layers[j] {
            proof {
                assert(slot_matches(secv[j as int], layers@, j as int));
                assert(secv[j as int]->Some_0 == rd);
            }
            let ghost b0 = scene.chunk_buffer.data@;
            scene.chunk_buffer.write_at(rd.vertex_range.start, &layers[j].vertices);
            let ghost b1 = scene.chunk_buffer.data@;
            scene.chunk_buffer.write_at(rd.index_range.start, &layers[j].indices);
            let ghost b2 = scene.chunk_buffer.data@;
            proof {
                lemma_slot_write_effect(
                    secv,
                    layers@,
                    j as int,
                    b0,
                    b1,
                    b2,
                    s1.chunk_buffer.data@,
                );
            }
        }
        j = j + 1;
    }
    proof {
        assert(update_applied(pre, *scene, pos, layers@)) by {
            assert(pre.chunk_buffer == s1.chunk_buffer);
        }
    }
    Ok(())
}

} // verus!
