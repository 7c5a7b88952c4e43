use vstd::prelude::*;

use crate::allocator::{RangeAllocator, SpaceError};
use crate::chunk::{
    copy_layers, layer_bytes, layer_present, layers_total_bytes, layers_total_from,
    lemma_layers_total_from_nonneg, lemma_section_extend_disjoint, lemma_section_owns_push_none,
    lemma_section_owns_push_some, section_matches, section_owns, section_self_disjoint,
    section_within, slot_matches, BakedLayer, ChunkPos, Section, LAYER_COUNT,
};
use crate::range::{lemma_pointwise_disjoint, span_has, spans_disjoint, RangeDescriptor};

verus! {

/// Keyed table of live chunk sections and owner of the chunk buffer's
/// sub-allocation policy: it decides which byte ranges each section's
/// layers occupy, keeps live ranges disjoint, and recycles vacated
/// ranges.
pub struct SectionStorage {
    entries: Vec<(ChunkPos, Section)>,
    allocator: RangeAllocator,
}

/// The table a sequence of entries denotes: later entries win, though
/// a well-formed storage never stores one key twice.
pub open spec fn entries_map(es: Seq<(ChunkPos, Section)>) -> Map<
    ChunkPos,
    Seq<Option<RangeDescriptor>>,
>
    decreases es.len(),
{
    if es.len() == 0 {
        Map::empty()
    } else {
        entries_map(es.drop_last()).insert(es.last().0, es.last().1.layers@)
    }
}

/// No chunk position appears twice.
pub open spec fn unique_keys(es: Seq<(ChunkPos, Section)>) -> bool {
    forall|i: int, k: int|
        0 <= i < es.len() && 0 <= k < es.len() && i != k ==> (#[trigger] es[i]).0 != (
        #[trigger] es[k]).0
}

proof fn lemma_entries_map_mem(es: Seq<(ChunkPos, Section)>, p: ChunkPos)
    ensures
        entries_map(es).contains_key(p) <==> exists|i: int| 0 <= i < es.len() && (#[trigger] es[i]).0 == p,
    decreases es.len(),
{
    if es.len() > 0 {
        lemma_entries_map_mem(es.drop_last(), p);
        if entries_map(es).contains_key(p) {
            if es.last().0 == p {
                assert((es[es.len() - 1]).0 == p);
            } else {
                let i = choose|i: int|
                    0 <= i < es.drop_last().len() && (#[trigger] es.drop_last()[i]).0 == p;
                assert((es[i]).0 == p);
            }
        }
        if exists|i: int| 0 <= i < es.len() && (#[trigger] es[i]).0 == p {
            let i = choose|i: int| 0 <= i < es.len() && (#[trigger] es[i]).0 == p;
            if i < es.len() - 1 {
                assert((es.drop_last()[i]).0 == p);
            }
        }
    }
}

proof fn lemma_entries_map_at(es: Seq<(ChunkPos, Section)>, i: int)
    requires
        unique_keys(es),
        0 <= i < es.len(),
    ensures
        entries_map(es).contains_key(es[i].0),
        entries_map(es)[es[i].0] == es[i].1.layers@,
    decreases es.len(),
{
    if i == es.len() - 1 {
    } else {
        assert(unique_keys(es.drop_last()));
        lemma_entries_map_at(es.drop_last(), i);
        assert(es.drop_last()[i] == es[i]);
        assert(es.last().0 != es[i].0);
    }
}

proof fn lemma_entries_map_remove(es: Seq<(ChunkPos, Section)>, i: int)
    requires
        unique_keys(es),
        0 <= i < es.len(),
    ensures
        entries_map(es.remove(i)) == entries_map(es).remove(es[i].0),
    decreases es.len(),
{
    let p = es[i].0;
    if i == es.len() - 1 {
        assert(es.remove(i) =~= es.drop_last());
        lemma_entries_map_mem(es.drop_last(), p);
        assert(!entries_map(es.drop_last()).contains_key(p)) by {
            if entries_map(es.drop_last()).contains_key(p) {
                let k = choose|k: int|
                    0 <= k < es.drop_last().len() && (#[trigger] es.drop_last()[k]).0 == p;
                assert((es[k]).0 == p);
            }
        }
        assert(entries_map(es.drop_last()) =~= entries_map(es).remove(p));
    } else {
        assert(unique_keys(es.drop_last()));
        lemma_entries_map_remove(es.drop_last(), i);
        assert(es.remove(i).drop_last() =~= es.drop_last().remove(i));
        assert(es.remove(i).last() == es.last());
        assert(entries_map(es.remove(i)) == entries_map(es.drop_last().remove(i)).insert(
            es.last().0,
            es.last().1.layers@,
        ));
        assert(es.last().0 != p);
        assert(entries_map(es.drop_last()).remove(p).insert(es.last().0, es.last().1.layers@)
            =~= entries_map(es.drop_last()).insert(es.last().0, es.last().1.layers@).remove(p));
    }
}

proof fn lemma_entries_map_push(es: Seq<(ChunkPos, Section)>, e: (ChunkPos, Section))
    ensures
        entries_map(es.push(e)) == entries_map(es).insert(e.0, e.1.layers@),
{
    assert(es.push(e).drop_last() =~= es);
    assert(es.push(e).last() == e);
}

/// Going from `pre` to `post`, the available addresses gained exactly
/// the bytes the section owns.
pub open spec fn layers_avail_grown(
    pre: RangeAllocator,
    post: RangeAllocator,
    sec: Seq<Option<RangeDescriptor>>,
) -> bool {
    forall|a: int| #![trigger post.avail(a)]
        post.avail(a) <==> pre.avail(a) || section_owns(sec, a)
}

/// Hand every range of a detached section back to the allocator.
fn release_layers(alloc: &mut RangeAllocator, sec: &Vec<Option<RangeDescriptor>>)
    requires
        old(alloc).wf(),
        section_within(sec@, old(alloc).cap as int),
        section_self_disjoint(sec@),
        forall|a: int| section_owns(sec@, a) ==> !old(alloc).avail(a),
    ensures
        final(alloc).wf(),
        final(alloc).cap == old(alloc).cap,
        final(alloc).max == old(alloc).max,
        layers_avail_grown(*old(alloc), *final(alloc), sec@),
{
    let mut j: usize = 0;
    while j < sec.len()
        invariant
            alloc.wf(),
            alloc.cap == old(alloc).cap,
            alloc.max == old(alloc).max,
            j <= sec@.len(),
            section_within(sec@, old(alloc).cap as int),
            section_self_disjoint(sec@),
            forall|a: int| section_owns(sec@, a) ==> !old(alloc).avail(a),
            forall|a: int| #![trigger alloc.avail(a)]
                alloc.avail(a) <==> old(alloc).avail(a) || section_owns(sec@.take(j as int), a),
        decreases sec@.len() - j,
    {
        let ghost pre_iter = *alloc;
        if let Some(rd) = sec[j] {
            proof {
                assert forall|a: int| span_has(rd.vertex_range, a) implies !alloc.avail(a) by {
                    assert(section_owns(sec@, a)) by {
                        assert((sec@[j as int]) is Some && span_has(
                            sec@[j as int]->Some_0.vertex_range,
                            a,
                        ));
                    }
                    if section_owns(sec@.take(j as int), a) {
                        let k = choose|k: int|
                            0 <= k < sec@.take(j as int).len() && (#[trigger] sec@.take(
                                j as int,
                            )[k]) is Some && (span_has(
                                sec@.take(j as int)[k]->Some_0.vertex_range,
                                a,
                            ) || span_has(sec@.take(j as int)[k]->Some_0.index_range, a));
                        assert(sec@[k] == sec@.take(j as int)[k]);
                        assert(spans_disjoint(
                            sec@[k]->Some_0.vertex_range,
                            sec@[j as int]->Some_0.vertex_range,
                        ) && spans_disjoint(
                            sec@[k]->Some_0.index_range,
                            sec@[j as int]->Some_0.vertex_range,
                        ) && spans_disjoint(
                            sec@[k]->Some_0.vertex_range,
                            sec@[j as int]->Some_0.index_range,
                        ));
                        assert(false);
                    }
                }
            }
            alloc.release(rd.vertex_range);
            proof {
                assert forall|a: int| span_has(rd.index_range, a) implies !alloc.avail(a) by {
                    assert(section_owns(sec@, a)) by {
                        assert((sec@[j as int]) is Some && span_has(
                            sec@[j as int]->Some_0.index_range,
                            a,
                        ));
                    }
                    assert(spans_disjoint(
                        sec@[j as int]->Some_0.vertex_range,
                        sec@[j as int]->Some_0.index_range,
                    ));
                    if section_owns(sec@.take(j as int), a) {
                        let k = choose|k: int|
                            0 <= k < sec@.take(j as int).len() && (#[trigger] sec@.take(
                                j as int,
                            )[k]) is Some && (span_has(
                                sec@.take(j as int)[k]->Some_0.vertex_range,
                                a,
                            ) || span_has(sec@.take(j as int)[k]->Some_0.index_range, a));
                        assert(sec@[k] == sec@.take(j as int)[k]);
                        assert(spans_disjoint(
                            sec@[k]->Some_0.vertex_range,
                            sec@[j as int]->Some_0.index_range,
                        ) && spans_disjoint(
                            sec@[k]->Some_0.index_range,
                            sec@[j as int]->Some_0.index_range,
                        ));
                        assert(false);
                    }
                }
            }
            alloc.release(rd.index_range);
            proof {
                assert forall|a: int| #![trigger alloc.avail(a)]
                    alloc.avail(a) <==> old(alloc).avail(a) || section_owns(
                        sec@.take(j as int + 1),
                        a,
                    ) by {
                    if alloc.avail(a) {
                        if span_has(rd.vertex_range, a) || span_has(rd.index_range, a) {
                            assert((sec@.take(j as int + 1)[j as int]) is Some);
                            assert(section_owns(sec@.take(j as int + 1), a));
                        } else if !pre_iter.avail(a) {
                            assert(false);
                        } else if section_owns(sec@.take(j as int), a) {
                            let k = choose|k: int|
                                0 <= k < sec@.take(j as int).len() && (#[trigger] sec@.take(
                                    j as int,
                                )[k]) is Some && (span_has(
                                    sec@.take(j as int)[k]->Some_0.vertex_range,
                                    a,
                                ) || span_has(sec@.take(j as int)[k]->Some_0.index_range, a));
                            assert(sec@.take(j as int + 1)[k] == sec@.take(j as int)[k]);
                            assert(section_owns(sec@.take(j as int + 1), a));
                        }
                    }
                    if old(alloc).avail(a) {
                        assert(pre_iter.avail(a));
                        assert(alloc.avail(a));
                    }
                    if section_owns(sec@.take(j as int + 1), a) {
                        let k = choose|k: int|
                            0 <= k < sec@.take(j as int + 1).len() && (#[trigger] sec@.take(
                                j as int + 1,
                            )[k]) is Some && (span_has(
                                sec@.take(j as int + 1)[k]->Some_0.vertex_range,
                                a,
                            ) || span_has(sec@.take(j as int + 1)[k]->Some_0.index_range, a));
                        if k == j as int {
                            assert(alloc.avail(a));
                        } else {
                            assert(sec@.take(j as int)[k] == sec@.take(j as int + 1)[k]);
                            assert(section_owns(sec@.take(j as int), a));
                            assert(pre_iter.avail(a));
                            assert(alloc.avail(a));
                        }
                    }
                }
            }
        } else {
            proof {
                assert forall|a: int| #![trigger alloc.avail(a)]
                    alloc.avail(a) <==> old(alloc).avail(a) || section_owns(
                        sec@.take(j as int + 1),
                        a,
                    ) by {
                    if section_owns(sec@.take(j as int + 1), a) {
                        let k = choose|k: int|
                            0 <= k < sec@.take(j as int + 1).len() && (#[trigger] sec@.take(
                                j as int + 1,
                            )[k]) is Some && (span_has(
                                sec@.take(j as int + 1)[k]->Some_0.vertex_range,
                                a,
                            ) || span_has(sec@.take(j as int + 1)[k]->Some_0.index_range, a));
                        assert(k != j as int);
                        assert(sec@.take(j as int)[k] == sec@.take(j as int + 1)[k]);
                        assert(section_owns(sec@.take(j as int), a));
                    }
                    if section_owns(sec@.take(j as int), a) {
                        let k = choose|k: int|
                            0 <= k < sec@.take(j as int).len() && (#[trigger] sec@.take(
                                j as int,
                            )[k]) is Some && (span_has(
                                sec@.take(j as int)[k]->Some_0.vertex_range,
                                a,
                            ) || span_has(sec@.take(j as int)[k]->Some_0.index_range, a));
                        assert(sec@.take(j as int + 1)[k] == sec@.take(j as int)[k]);
                        assert(section_owns(sec@.take(j as int + 1), a));
                    }
                }
            }
        }
        j = j + 1;
    }
    proof {
        assert(sec@.take(sec@.len() as int) =~= sec@);
        assert(layers_avail_grown(*old(alloc), *alloc, sec@));
    }
}

impl View for SectionStorage {
    type V = Map<ChunkPos, Seq<Option<RangeDescriptor>>>;

    closed spec fn view(&self) -> Self::V {
        entries_map(self.entries@)
    }
}

/// The section stored at `pos` owns byte address `a`.
pub open spec fn stored_owns(st: SectionStorage, pos: ChunkPos, a: int) -> bool {
    st@.contains_key(pos) && section_owns(st@[pos], a)
}

/// Availability change of a successful replace: the bytes of the
/// section previously stored at `pos` are handed back, the bytes of
/// the newly installed section `sec` are claimed.
pub open spec fn replaced_avail(
    post: SectionStorage,
    pre: SectionStorage,
    pos: ChunkPos,
    sec: Seq<Option<RangeDescriptor>>,
) -> bool {
    forall|a: int| #![trigger post.avail(a)]
        post.avail(a) <==> ((pre.avail(a) || stored_owns(pre, pos, a)) && !section_owns(sec, a))
}

/// Availability change of a refused replace: the bytes of the section
/// previously stored at `pos` are handed back and nothing is claimed.
pub open spec fn dropped_avail(post: SectionStorage, pre: SectionStorage, pos: ChunkPos) -> bool {
    forall|a: int| #![trigger post.avail(a)]
        post.avail(a) <==> pre.avail(a) || stored_owns(pre, pos, a)
}

/// State of a storage whose section at `pos` (if there was one) has
/// been detached and its ranges handed back, before any new ranges are
/// claimed: the remaining entries are intact and own no available
/// byte, and availability grew by exactly the detached section.
spec fn detached(pre: SectionStorage, base: SectionStorage, pos: ChunkPos) -> bool {
    &&& base.allocator.wf()
    &&& base.allocator.max == pre.allocator.max
    &&& base.allocator.cap == pre.allocator.cap
    &&& unique_keys(base.entries@)
    &&& entries_map(base.entries@) == pre@.remove(pos)
    &&& forall|i: int|
        0 <= i < base.entries@.len() ==> (#[trigger] base.entries@[i]).1.layers@.len()
            == LAYER_COUNT
    &&& forall|i: int|
        0 <= i < base.entries@.len() ==> section_within(
            (#[trigger] base.entries@[i]).1.layers@,
            base.allocator.cap as int,
        )
    &&& forall|i: int|
        0 <= i < base.entries@.len() ==> section_self_disjoint(
            (#[trigger] base.entries@[i]).1.layers@,
        )
    &&& forall|i: int| 0 <= i < base.entries@.len() ==> (#[trigger] base.entries@[i]).0 != pos
    &&& forall|i: int, a: int|
        0 <= i < base.entries@.len() && #[trigger] section_owns(
            base.entries@[i].1.layers@,
            a,
        ) ==> !base.allocator.avail(a)
    &&& forall|i1: int, i2: int, a: int|
        #![trigger section_owns(base.entries@[i1].1.layers@, a), section_owns(base.entries@[i2].1.layers@, a)]
        0 <= i1 < base.entries@.len() && 0 <= i2 < base.entries@.len() && i1 != i2
            && section_owns(base.entries@[i1].1.layers@, a) ==> !section_owns(
            base.entries@[i2].1.layers@,
            a,
        )
    &&& forall|a: int| #![trigger base.allocator.avail(a)]
        base.allocator.avail(a) <==> pre.allocator.avail(a) || stored_owns(pre, pos, a)
}

impl SectionStorage {
    /// The storage's internal consistency: the allocator is sound, no
    /// chunk position is stored twice, every stored section has one
    /// slot per layer with nonempty in-buffer ranges, no live range is
    /// also available, and no two live ranges overlap, neither inside
    /// one section nor across sections.
    pub closed spec fn wf(self) -> bool {
        &&& self.allocator.wf()
        &&& unique_keys(self.entries@)
        &&& forall|i: int|
            0 <= i < self.entries@.len() ==> (#[trigger] self.entries@[i]).1.layers@.len()
                == LAYER_COUNT
        &&& forall|i: int|
            0 <= i < self.entries@.len() ==> section_within(
                (#[trigger] self.entries@[i]).1.layers@,
                self.allocator.cap as int,
            )
        &&& forall|i: int|
            0 <= i < self.entries@.len() ==> section_self_disjoint(
                (#[trigger] self.entries@[i]).1.layers@,
            )
        &&& forall|i: int, a: int|
            0 <= i < self.entries@.len() && #[trigger] section_owns(
                self.entries@[i].1.layers@,
                a,
            ) ==> !self.allocator.avail(a)
        &&& forall|i1: int, i2: int, a: int|
            #![trigger section_owns(self.entries@[i1].1.layers@, a), section_owns(self.entries@[i2].1.layers@, a)]
            0 <= i1 < self.entries@.len() && 0 <= i2 < self.entries@.len() && i1 != i2
                && section_owns(self.entries@[i1].1.layers@, a) ==> !section_owns(
                self.entries@[i2].1.layers@,
                a,
            )
    }

    /// A byte address of the chunk buffer that is still available:
    /// free for reuse or part of the growth headroom.
    pub closed spec fn avail(self, a: int) -> bool {
        self.allocator.avail(a)
    }

    /// The chunk buffer's current size in bytes.
    pub closed spec fn cap_spec(self) -> int {
        self.allocator.cap as int
    }

    /// The size the chunk buffer may grow to.
    pub closed spec fn max_spec(self) -> int {
        self.allocator.max as int
    }

    /// Empty storage over a chunk buffer that may grow to
    /// `max_capacity` bytes.
    pub fn new(max_capacity: usize) -> (r: SectionStorage)
        ensures
            r.wf(),
            r@ == Map::<ChunkPos, Seq<Option<RangeDescriptor>>>::empty(),
            r.cap_spec() == 0,
            r.max_spec() == max_capacity as int,
            forall|a: int| r.avail(a) <==> 0 <= a < max_capacity,
    {
        SectionStorage { entries: Vec::new(), allocator: RangeAllocator::new(max_capacity) }
    }

    /// The chunk buffer's current size in bytes.
    pub fn capacity(&self) -> (r: usize)
        ensures
            r as int == self.cap_spec(),
    {
        self.allocator.capacity()
    }

    /// The size the chunk buffer may grow to.
    pub fn max_capacity(&self) -> (r: usize)
        ensures
            r as int == self.max_spec(),
    {
        self.allocator.max_capacity()
    }

    fn find(&self, pos: ChunkPos) -> (r: Option<usize>)
        ensures
            match r {
                Some(i) => i < self.entries@.len() && self.entries@[i as int].0 == pos,
                None => forall|i: int|
                    0 <= i < self.entries@.len() ==> (#[trigger] self.entries@[i]).0 != pos,
            },
    {
        let mut i: usize = 0;
        while i < self.entries.len()
            invariant
                i <= self.entries@.len(),
                forall|k: int| 0 <= k < i ==> (#[trigger] self.entries@[k]).0 != pos,
            decreases self.entries@.len() - i,
        {
            if self.entries[i].0 == pos {
                return Some(i);
            }
            i = i + 1;
        }
        None
    }

    /// Read the section currently stored at `pos`, if any.
    pub fn get(&self, pos: ChunkPos) -> (r: Option<Section>)
        requires
            self.wf(),
        ensures
            match r {
                Some(sec) => self@.contains_key(pos) && sec.layers@ == self@[pos],
                None => !self@.contains_key(pos),
            },
    {
        match self.find(pos) {
            Some(i) => {
                proof {
                    lemma_entries_map_at(self.entries@, i as int);
                }
                Some(Section { layers: copy_layers(&self.entries[i].1.layers) })
            },
            None => {
                proof {
                    lemma_entries_map_mem(self.entries@, pos);
                }
                None
            },
        }
    }

    /// Give up a half-built section whose slots are in `new_layers`:
    /// hand its ranges back and leave the storage without `pos`.
    fn abandon(
        &mut self,
        new_layers: &Vec<Option<RangeDescriptor>>,
        Ghost(pre): Ghost<SectionStorage>,
        Ghost(pos): Ghost<ChunkPos>,
        Ghost(base): Ghost<SectionStorage>,
    )
        requires
            detached(pre, base, pos),
            old(self).entries@ == base.entries@,
            old(self).allocator.wf(),
            old(self).allocator.max == base.allocator.max,
            base.allocator.cap <= old(self).allocator.cap,
            section_within(new_layers@, old(self).allocator.cap as int),
            section_self_disjoint(new_layers@),
            forall|a: int| section_owns(new_layers@, a) ==> base.allocator.avail(a),
            forall|a: int| #![trigger old(self).allocator.avail(a)]
                old(self).allocator.avail(a) <==> base.allocator.avail(a) && !section_owns(
                    new_layers@,
                    a,
                ),
        ensures
            final(self).wf(),
            final(self)@ == pre@.remove(pos),
            final(self).max_spec() == pre.max_spec(),
            final(self).cap_spec() == old(self).allocator.cap as int,
            dropped_avail(*final(self), pre, pos),
    {
        proof {
            assert forall|a: int| section_owns(new_layers@, a) implies !self.allocator.avail(
                a,
            ) by {}
        }
        release_layers(&mut self.allocator, new_layers);
        proof {
            assert forall|a: int| #![trigger self.allocator.avail(a)]
                self.allocator.avail(a) <==> base.allocator.avail(a) by {
                if self.allocator.avail(a) && section_owns(new_layers@, a) {
                    assert(base.allocator.avail(a));
                }
            }
            assert forall|i: int, a: int|
                0 <= i < self.entries@.len() && #[trigger] section_owns(
                    self.entries@[i].1.layers@,
                    a,
                ) implies !self.allocator.avail(a) by {
                assert(section_owns(base.entries@[i].1.layers@, a));
            }
            assert forall|i: int|
                0 <= i < self.entries@.len() implies section_within(
                (#[trigger] self.entries@[i]).1.layers@,
                self.allocator.cap as int,
            ) by {
                assert(section_within(base.entries@[i].1.layers@, base.allocator.cap as int));
            }
            assert(self.wf());
            assert(dropped_avail(*self, pre, pos));
        }
    }

    /// Install a new section for `pos`: allocate a vertex range and an
    /// index range sized exactly to each present layer's bytes, hand
    /// back the ranges of any section previously stored at `pos`, and
    /// return a copy of the installed section.  Refused only on
    /// exhaustion of the chunk buffer; success is owed whenever the
    /// request fits in the buffer's growth headroom, and a refusal
    /// leaves `pos` unmapped with the old ranges handed back.
    #[verifier::loop_isolation(false)]
    pub fn replace(&mut self, pos: ChunkPos, layers: &Vec<BakedLayer>) -> (r: Result<
        Section,
        SpaceError,
    >)
        requires
            old(self).wf(),
            layers@.len() <= LAYER_COUNT,
        ensures
            final(self).wf(),
            final(self).max_spec() == old(self).max_spec(),
            0 <= final(self).cap_spec() <= usize::MAX,
            old(self).cap_spec() <= final(self).cap_spec() <= old(self).cap_spec()
                + layers_total_bytes(layers@),
            layers_total_bytes(layers@) <= old(self).max_spec() - old(self).cap_spec() ==> r
                is Ok,
            match r {
                Ok(sec) => {
                    &&& section_matches(sec.layers@, layers@)
                    &&& section_self_disjoint(sec.layers@)
                    &&& section_within(sec.layers@, final(self).cap_spec())
                    &&& final(self)@ == old(self)@.insert(pos, sec.layers@)
                    &&& replaced_avail(*final(self), *old(self), pos, sec.layers@)
                },
                Err(_) => {
                    &&& final(self)@ == old(self)@.remove(pos)
                    &&& dropped_avail(*final(self), *old(self), pos)
                },
            },
    {
        let ghost pre = *self;
        match self.find(pos) {
            Some(idx) => {
                proof {
                    lemma_entries_map_at(pre.entries@, idx as int);
                    lemma_entries_map_remove(pre.entries@, idx as int);
                }
                let removed = self.entries.remove(idx);
                proof {
                    assert forall|k: int|
                        0 <= k < self.entries@.len() implies #[trigger] self.entries@[k] == (
                    if k < idx {
                        pre.entries@[k]
                    } else {
                        pre.entries@[k + 1]
                    }) by {}
                    assert(unique_keys(self.entries@));
                    assert forall|k: int, a: int|
                        0 <= k < self.entries@.len() && #[trigger] section_owns(
                            self.entries@[k].1.layers@,
                            a,
                        ) implies !self.allocator.avail(a) && !section_owns(
                        removed.1.layers@,
                        a,
                    ) by {
                        let kp: int = if k < idx {
                            k
                        } else {
                            k + 1
                        };
                        assert(section_owns(pre.entries@[kp].1.layers@, a));
                        assert(section_owns(pre.entries@[idx as int].1.layers@, a)
                            ==> false);
                    }
                }
                release_layers(&mut self.allocator, &removed.1.layers);
                proof {
                    assert forall|a: int| #![trigger self.allocator.avail(a)]
                        self.allocator.avail(a) <==> pre.allocator.avail(a) || stored_owns(
                            pre,
                            pos,
                            a,
                        ) by {
                        assert(pre@.contains_key(pos) && pre@[pos] == removed.1.layers@);
                    }
                    assert forall|k: int, a: int|
                        0 <= k < self.entries@.len() && #[trigger] section_owns(
                            self.entries@[k].1.layers@,
                            a,
                        ) implies !self.allocator.avail(a) by {}
                    assert(detached(pre, *self, pos));
                }
            },
            None => {
                proof {
                    lemma_entries_map_mem(pre.entries@, pos);
                    assert(!pre@.contains_key(pos));
                    assert(pre@.remove(pos) =~= pre@);
                    assert(detached(pre, *self, pos));
                }
            },
        }
        let ghost base = *self;

        let mut new_layers: Vec<Option<RangeDescriptor>> = Vec::new();
        let mut j: usize = 0;
        while j < LAYER_COUNT
            invariant
                j <= LAYER_COUNT,
                new_layers@.len() == j as int,
                self.entries@ == base.entries@,
                self.allocator.wf(),
                self.allocator.max == base.allocator.max,
                base.allocator.cap <= self.allocator.cap,
                self.allocator.cap as int + layers_total_from(layers@, j as int)
                    <= base.allocator.cap as int + layers_total_bytes(layers@),
                forall|k: int| 0 <= k < j ==> slot_matches(#[trigger] new_layers@[k], layers@, k),
                section_self_disjoint(new_layers@),
                section_within(new_layers@, self.allocator.cap as int),
                forall|a: int| section_owns(new_layers@, a) ==> base.allocator.avail(a),
                forall|a: int| #![trigger self.allocator.avail(a)]
                    self.allocator.avail(a) <==> base.allocator.avail(a) && !section_owns(
                        new_layers@,
                        a,
                    ),
            decreases LAYER_COUNT - j,
        {
            let ghost nl0 = new_layers@;
            let present = j < layers.len() && layers[j].vertices.len() > 0 && layers[j].indices.len()
                > 0;
            if present {
                let vlen = layers[j].vertices.len();
                let ilen = layers[j].indices.len();
                proof {
                    lemma_layers_total_from_nonneg(layers@, j as int + 1);
                    assert(layers_total_from(layers@, j as int) == layer_bytes(layers@[j as int])
                        + layers_total_from(layers@, j as int + 1));
                    assert(layer_present(layers@[j as int]));
                    assert(layer_bytes(layers@[j as int]) == vlen + ilen);
                }
                let ghost av0 = self.allocator;
                let vr = match self.allocator.allocate(vlen) {
                    Ok(s) => s,
                    Err(e) => {
                        proof {
                            assert(layers_total_bytes(layers@) > base.allocator.max as int
                                - base.allocator.cap as int);
                            assert(self.allocator.cap as int <= base.allocator.cap as int
                                + layers_total_bytes(layers@));
                        }
                        self.abandon(&new_layers, Ghost(pre), Ghost(pos), Ghost(base));
                        return Err(e);
                    },
                };
                let ghost av1 = self.allocator;
                let ir = match self.allocator.allocate(ilen) {
                    Ok(s) => s,
                    Err(e) => {
                        proof {
                            assert(av1.cap as int + ilen <= base.allocator.cap as int
                                + layers_total_bytes(layers@));
                            assert(layers_total_bytes(layers@) > base.allocator.max as int
                                - base.allocator.cap as int);
                            assert forall|a: int| span_has(vr, a) implies !self.allocator.avail(
                                a,
                            ) by {}
                        }
                        self.allocator.release(vr);
                        proof {
                            assert forall|a: int| #![trigger self.allocator.avail(a)]
                                self.allocator.avail(a) <==> base.allocator.avail(a)
                                    && !section_owns(new_layers@, a) by {
                                if span_has(vr, a) {
                                    assert(av0.avail(a));
                                }
                            }
                            assert(self.allocator.cap as int <= base.allocator.cap as int
                                + layers_total_bytes(layers@));
                        }
                        self.abandon(&new_layers, Ghost(pre), Ghost(pos), Ghost(base));
                        return Err(e);
                    },
                };
                let ghost av2 = self.allocator;
                let rd = RangeDescriptor { vertex_range: vr, index_range: ir };
                proof {
                    assert forall|a: int|
                        span_has(vr, a) || span_has(ir, a) implies av0.avail(a)
                            && base.allocator.avail(a) && !section_owns(nl0, a) by {
                        if span_has(ir, a) {
                            assert(av1.avail(a));
                        }
                    }
                    lemma_pointwise_disjoint(vr, ir);
                    lemma_section_extend_disjoint(nl0, rd);
                    lemma_section_owns_push_some(nl0, rd);
                }
                new_layers.push(Some(rd));
                proof {
                    assert(new_layers@ == nl0.push(Some(rd)));
                    assert forall|a: int| #![trigger self.allocator.avail(a)]
                        self.allocator.avail(a) <==> base.allocator.avail(a) && !section_owns(
                            new_layers@,
                            a,
                        ) by {
                        assert(section_owns(new_layers@, a) <==> section_owns(nl0, a) || span_has(
                            vr,
                            a,
                        ) || span_has(ir, a));
                    }
                    assert forall|k: int|
                        0 <= k < j + 1 implies slot_matches(
                        #[trigger] new_layers@[k],
                        layers@,
                        k,
                    ) by {
                        if k < j {
                            assert(new_layers@[k] == nl0[k]);
                        }
                    }
                    assert(section_within(new_layers@, self.allocator.cap as int)) by {
                        assert forall|k: int|
                            0 <= k < new_layers@.len() && (#[trigger] new_layers@[k])
                                is Some implies {
                            &&& new_layers@[k]->Some_0.vertex_range.len > 0
                            &&& new_layers@[k]->Some_0.vertex_range.start
                                + new_layers@[k]->Some_0.vertex_range.len
                                <= self.allocator.cap as int
                            &&& new_layers@[k]->Some_0.index_range.len > 0
                            &&& new_layers@[k]->Some_0.index_range.start
                                + new_layers@[k]->Some_0.index_range.len
                                <= self.allocator.cap as int
                        } by {
                            if k < nl0.len() {
                                assert(new_layers@[k] == nl0[k]);
                            }
                        }
                    }
                }
            } else {
                proof {
                    lemma_section_owns_push_none(nl0);
                    if j < layers.len() {
                        assert(!layer_present(layers@[j as int]));
                        assert(layer_bytes(layers@[j as int]) == 0);
                    }
                    assert(layers_total_from(layers@, j as int) == layers_total_from(
                        layers@,
                        j as int + 1,
                    ));
                }
                new_layers.push(None);
                proof {
                    assert(new_layers@ == nl0.push(None::<RangeDescriptor>));
                    assert forall|k: int|
                        0 <= k < j + 1 implies slot_matches(
                        #[trigger] new_layers@[k],
                        layers@,
                        k,
                    ) by {
                        if k < j {
                            assert(new_layers@[k] == nl0[k]);
                        } else {
                            assert((new_layers@[k]) is None);
                        }
                    }
                    assert forall|k: int|
                        0 <= k < new_layers@.len() && (#[trigger] new_layers@[k])
                            is Some implies 0 <= k < nl0.len() && nl0[k] == new_layers@[k] by {}
                    assert(section_self_disjoint(new_layers@)) by {
                        assert forall|j1: int, j2: int|
                            0 <= j1 < new_layers@.len() && 0 <= j2 < new_layers@.len() && (
                            #[trigger] new_layers@[j1]) is Some && (#[trigger] new_layers@[j2])
                                is Some implies {
                            &&& spans_disjoint(
                                new_layers@[j1]->Some_0.vertex_range,
                                new_layers@[j2]->Some_0.index_range,
                            )
                            &&& (j1 != j2 ==> spans_disjoint(
                                new_layers@[j1]->Some_0.vertex_range,
                                new_layers@[j2]->Some_0.vertex_range,
                            ) && spans_disjoint(
                                new_layers@[j1]->Some_0.index_range,
                                new_layers@[j2]->Some_0.index_range,
                            ))
                        } by {
                            assert(nl0[j1] == new_layers@[j1] && nl0[j2] == new_layers@[j2]);
                        }
                    }
                }
            }
            j = j + 1;
        }

        let ghost built = new_layers@;
        let ret = Section { layers: copy_layers(&new_layers) };
        self.entries.push((pos, Section { layers: new_layers }));
        proof {
            assert(layers_total_from(layers@, LAYER_COUNT as int) == 0);
            let es1 = base.entries@;
            let es2 = self.entries@;
            lemma_entries_map_push(es1, es2.last());
            assert(es2.last().1.layers@ == built);
            assert(self@ == entries_map(es1).insert(pos, built));
            assert(pre@.remove(pos).insert(pos, built) =~= pre@.insert(pos, built));
            assert(self@ == pre@.insert(pos, built));

            // well-formedness of the extended table
            assert forall|k: int| 0 <= k < es2.len() implies #[trigger] es2[k] == (if k < es1.len() {
                es1[k]
            } else {
                es2.last()
            }) by {}
            assert(unique_keys(es2));
            assert forall|i: int|
                0 <= i < es2.len() implies (#[trigger] es2[i]).1.layers@.len() == LAYER_COUNT
                    && section_self_disjoint(es2[i].1.layers@) && section_within(
                    es2[i].1.layers@,
                    self.allocator.cap as int,
                ) by {
                if i < es1.len() {
                    assert(section_within(es1[i].1.layers@, base.allocator.cap as int));
                }
            }
            assert forall|i: int, a: int|
                0 <= i < es2.len() && #[trigger] section_owns(
                    es2[i].1.layers@,
                    a,
                ) implies !self.allocator.avail(a) by {
                if i < es1.len() {
                    assert(section_owns(es1[i].1.layers@, a));
                    assert(!base.allocator.avail(a));
                } else {
                    assert(section_owns(built, a));
                }
            }
            assert forall|i1: int, i2: int, a: int|
                #![trigger section_owns(es2[i1].1.layers@, a), section_owns(es2[i2].1.layers@, a)]
                0 <= i1 < es2.len() && 0 <= i2 < es2.len() && i1 != i2 && section_owns(
                    es2[i1].1.layers@,
                    a,
                ) implies !section_owns(es2[i2].1.layers@, a) by {
                if section_owns(es2[i1].1.layers@, a) && section_owns(es2[i2].1.layers@, a) {
                    if i1 < es1.len() && i2 < es1.len() {
                        assert(section_owns(es1[i1].1.layers@, a));
                        assert(section_owns(es1[i2].1.layers@, a));
                    } else if i1 < es1.len() {
                        assert(section_owns(es1[i1].1.layers@, a));
                        assert(section_owns(built, a));
                        assert(base.allocator.avail(a));
                        assert(false);
                    } else {
                        assert(section_owns(es1[i2].1.layers@, a));
                        assert(section_owns(built, a));
                        assert(base.allocator.avail(a));
                        assert(false);
                    }
                }
            }
            assert(self.wf());
            assert(replaced_avail(*self, pre, pos, built)) by {
                assert forall|a: int| #![trigger self.avail(a)]
                    self.avail(a) <==> ((pre.avail(a) || stored_owns(pre, pos, a))
                        && !section_owns(built, a)) by {
                    assert(self.allocator.avail(a) <==> base.allocator.avail(a) && !section_owns(
                        built,
                        a,
                    ));
                    assert(base.allocator.avail(a) <==> pre.allocator.avail(a) || stored_owns(
                        pre,
                        pos,
                        a,
                    ));
                }
            }
            assert(section_matches(ret.layers@, layers@));
        }
        Ok(ret)
    }

    /// The invariant a well-formed storage maintains over its live
    /// sections: ranges of different sections never overlap, no live
    /// range is also available, and every stored section has the fixed
    /// slot count with nonempty, in-buffer, pairwise disjoint ranges.
    pub proof fn lemma_live_sections_disjoint(self)
        requires
            self.wf(),
        ensures
            forall|p1: ChunkPos, p2: ChunkPos, a: int|
                #![trigger stored_owns(self, p1, a), stored_owns(self, p2, a)]
                p1 != p2 && stored_owns(self, p1, a) ==> !stored_owns(self, p2, a),
            forall|p: ChunkPos, a: int| #![trigger stored_owns(self, p, a)]
                stored_owns(self, p, a) ==> !self.avail(a),
            forall|p: ChunkPos| #[trigger]
                self@.contains_key(p) ==> section_self_disjoint(self@[p]) && section_within(
                    self@[p],
                    self.cap_spec(),
                ) && self@[p].len() == LAYER_COUNT,
    {
        let es = self.entries@;
        assert forall|p: ChunkPos| #[trigger]
            self@.contains_key(p) implies section_self_disjoint(self@[p]) && section_within(
            self@[p],
            self.cap_spec(),
        ) && self@[p].len() == LAYER_COUNT && exists|i: int|
            0 <= i < es.len() && es[i].0 == p && self@[p] == es[i].1.layers@ by {
            lemma_entries_map_mem(es, p);
            let i = choose|i: int| 0 <= i < es.len() && (#[trigger] es[i]).0 == p;
            lemma_entries_map_at(es, i);
            assert(0 <= i < es.len() && es[i].0 == p && self@[p] == es[i].1.layers@);
        }
        assert forall|p: ChunkPos, a: int| #![trigger stored_owns(self, p, a)]
            stored_owns(self, p, a) implies !self.avail(a) by {
            if stored_owns(self, p, a) {
                let i = choose|i: int| 0 <= i < es.len() && es[i].0 == p && self@[p] == es[i].1.layers@;
                assert(section_owns(es[i].1.layers@, a));
            }
        }
        assert forall|p1: ChunkPos, p2: ChunkPos, a: int|
            #![trigger stored_owns(self, p1, a), stored_owns(self, p2, a)]
            p1 != p2 && stored_owns(self, p1, a) implies !stored_owns(self, p2, a) by {
            if stored_owns(self, p1, a) && stored_owns(self, p2, a) {
                let i1 = choose|i: int|
                    0 <= i < es.len() && es[i].0 == p1 && self@[p1] == es[i].1.layers@;
                let i2 = choose|i: int|
                    0 <= i < es.len() && es[i].0 == p2 && self@[p2] == es[i].1.layers@;
                assert(i1 != i2);
                assert(section_owns(es[i1].1.layers@, a));
                assert(section_owns(es[i2].1.layers@, a));
                assert(false);
            }
        }
    }
}

} // verus!
