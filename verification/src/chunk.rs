use vstd::prelude::*;

use crate::range::{lemma_pointwise_disjoint, span_has, spans_disjoint, RangeDescriptor};

verus! {

/// Number of layer slots in every chunk section: the engine's fixed
/// material/pass ordering.
pub const LAYER_COUNT: usize = 4;

/// Position of a chunk section in world space; the unique key into
/// section storage.
#[derive(Clone, Copy, PartialEq, Eq, Structural, Debug)]
pub struct ChunkPos {
    pub x: i32,
    pub y: i32,
    pub z: i32,
}

/// Precomputed vertex and index bytes of one rendering layer of one
/// chunk section, ready for upload.
#[derive(Debug)]
pub struct BakedLayer {
    pub vertices: Vec<u8>,
    pub indices: Vec<u8>,
}

/// What section storage associates with a chunk position: one optional
/// range descriptor per layer slot.
#[derive(Debug)]
pub struct Section {
    pub layers: Vec<Option<RangeDescriptor>>,
}

/// A layer with geometry to draw: it has vertex bytes and index bytes.
/// Only such layers are given ranges in the chunk buffer.
pub open spec fn layer_present(l: BakedLayer) -> bool {
    l.vertices@.len() > 0 && l.indices@.len() > 0
}

/// Bytes of the chunk buffer that a replace must claim for one layer.
pub open spec fn layer_bytes(l: BakedLayer) -> int {
    if layer_present(l) {
        l.vertices@.len() as int + l.indices@.len() as int
    } else {
        0
    }
}

/// Bytes that the layers from slot `j` on must claim.
pub open spec fn layers_total_from(layers: Seq<BakedLayer>, j: int) -> int
    decreases layers.len() - j,
{
    if 0 <= j < layers.len() {
        layer_bytes(layers[j]) + layers_total_from(layers, j + 1)
    } else {
        0
    }
}

/// Bytes that a replace with `layers` must claim in all.
pub open spec fn layers_total_bytes(layers: Seq<BakedLayer>) -> int {
    layers_total_from(layers, 0)
}

/// The suffix sums are nonnegative and weakly decreasing in `j`.
pub proof fn lemma_layers_total_from_nonneg(layers: Seq<BakedLayer>, j: int)
    ensures
        layers_total_from(layers, j) >= 0,
    decreases layers.len() - j,
{
    if 0 <= j < layers.len() {
        lemma_layers_total_from_nonneg(layers, j + 1);
    }
}

/// Some slot of the section covers byte address `a`.
pub open spec fn section_owns(sec: Seq<Option<RangeDescriptor>>, a: int) -> bool {
    exists|j: int|
        0 <= j < sec.len() && (#[trigger] sec[j]) is Some && (span_has(
            sec[j]->Some_0.vertex_range,
            a,
        ) || span_has(sec[j]->Some_0.index_range, a))
}

/// What slot `k` must hold after a replace with `layers`: ranges sized
/// exactly to the layer's bytes when the layer is present, and nothing
/// otherwise.
pub open spec fn slot_matches(
    slot: Option<RangeDescriptor>,
    layers: Seq<BakedLayer>,
    k: int,
) -> bool {
    if 0 <= k < layers.len() && layer_present(layers[k]) {
        &&& slot is Some
        &&& slot->Some_0.vertex_range.len == layers[k].vertices@.len()
        &&& slot->Some_0.index_range.len == layers[k].indices@.len()
    } else {
        slot is None
    }
}

/// The whole slot pattern a replace with `layers` must produce.
pub open spec fn section_matches(sec: Seq<Option<RangeDescriptor>>, layers: Seq<BakedLayer>) -> bool {
    &&& sec.len() == LAYER_COUNT
    &&& forall|k: int| 0 <= k < sec.len() ==> slot_matches(#[trigger] sec[k], layers, k)
}

/// All ranges of one section, within a slot and across its slots, are
/// pairwise disjoint.
pub open spec fn section_self_disjoint(sec: Seq<Option<RangeDescriptor>>) -> bool {
    forall|j1: int, j2: int|
        0 <= j1 < sec.len() && 0 <= j2 < sec.len() && (#[trigger] sec[j1]) is Some && (
        #[trigger] sec[j2]) is Some ==> {
            &&& spans_disjoint(sec[j1]->Some_0.vertex_range, sec[j2]->Some_0.index_range)
            &&& (j1 != j2 ==> spans_disjoint(
                sec[j1]->Some_0.vertex_range,
                sec[j2]->Some_0.vertex_range,
            ) && spans_disjoint(sec[j1]->Some_0.index_range, sec[j2]->Some_0.index_range))
        }
}

/// Every range of the section is nonempty and ends by byte `cap`.
pub open spec fn section_within(sec: Seq<Option<RangeDescriptor>>, cap: int) -> bool {
    forall|j: int|
        0 <= j < sec.len() && (#[trigger] sec[j]) is Some ==> {
            &&& sec[j]->Some_0.vertex_range.len > 0
            &&& sec[j]->Some_0.vertex_range.start + sec[j]->Some_0.vertex_range.len <= cap
            &&& sec[j]->Some_0.index_range.len > 0
            &&& sec[j]->Some_0.index_range.start + sec[j]->Some_0.index_range.len <= cap
        }
}

/// Appending an occupied slot adds exactly its two spans to the bytes
/// the section owns.
pub proof fn lemma_section_owns_push_some(nl: Seq<Option<RangeDescriptor>>, rd: RangeDescriptor)
    ensures
        forall|a: int| #![trigger section_owns(nl.push(Some(rd)), a)]
            section_owns(nl.push(Some(rd)), a) <==> section_owns(nl, a) || span_has(
                rd.vertex_range,
                a,
            ) || span_has(rd.index_range, a),
{
    let nl1 = nl.push(Some(rd));
    assert forall|a: int| #![trigger section_owns(nl1, a)]
        section_owns(nl1, a) <==> section_owns(nl, a) || span_has(rd.vertex_range, a) || span_has(
            rd.index_range,
            a,
        ) by {
        if section_owns(nl1, a) {
            let k = choose|k: int|
                0 <= k < nl1.len() && (#[trigger] nl1[k]) is Some && (span_has(
                    nl1[k]->Some_0.vertex_range,
                    a,
                ) || span_has(nl1[k]->Some_0.index_range, a));
            if k < nl.len() {
                assert(nl[k] == nl1[k]);
                assert(section_owns(nl, a));
            } else {
                assert(nl1[k] == Some(rd));
            }
        }
        if section_owns(nl, a) {
            let k = choose|k: int|
                0 <= k < nl.len() && (#[trigger] nl[k]) is Some && (span_has(
                    nl[k]->Some_0.vertex_range,
                    a,
                ) || span_has(nl[k]->Some_0.index_range, a));
            assert(nl1[k] == nl[k]);
            assert(section_owns(nl1, a));
        }
        if span_has(rd.vertex_range, a) || span_has(rd.index_range, a) {
            assert((nl1[nl.len() as int]) is Some);
            assert(section_owns(nl1, a));
        }
    }
}

/// Appending an empty slot leaves the owned bytes unchanged.
pub proof fn lemma_section_owns_push_none(nl: Seq<Option<RangeDescriptor>>)
    ensures
        forall|a: int| #![trigger section_owns(nl.push(None::<RangeDescriptor>), a)]
            section_owns(nl.push(None::<RangeDescriptor>), a) <==> section_owns(nl, a),
{
    let nl1 = nl.push(None::<RangeDescriptor>);
    assert forall|a: int| #![trigger section_owns(nl1, a)]
        section_owns(nl1, a) <==> section_owns(nl, a) by {
        if section_owns(nl1, a) {
            let k = choose|k: int|
                0 <= k < nl1.len() && (#[trigger] nl1[k]) is Some && (span_has(
                    nl1[k]->Some_0.vertex_range,
                    a,
                ) || span_has(nl1[k]->Some_0.index_range, a));
            assert(k < nl.len() && nl[k] == nl1[k]);
            assert(section_owns(nl, a));
        }
        if section_owns(nl, a) {
            let k = choose|k: int|
                0 <= k < nl.len() && (#[trigger] nl[k]) is Some && (span_has(
                    nl[k]->Some_0.vertex_range,
                    a,
                ) || span_has(nl[k]->Some_0.index_range, a));
            assert(nl1[k] == nl[k]);
            assert(section_owns(nl1, a));
        }
    }
}

/// A fresh pair of spans that covers no byte the section owns may be
/// appended without breaking the section's internal disjointness.
pub proof fn lemma_section_extend_disjoint(nl: Seq<Option<RangeDescriptor>>, rd: RangeDescriptor)
    requires
        section_self_disjoint(nl),
        forall|j: int|
            0 <= j < nl.len() && (#[trigger] nl[j]) is Some ==> nl[j]->Some_0.vertex_range.len > 0
                && nl[j]->Some_0.index_range.len > 0,
        rd.vertex_range.len > 0,
        rd.index_range.len > 0,
        spans_disjoint(rd.vertex_range, rd.index_range),
        forall|a: int|
            span_has(rd.vertex_range, a) || span_has(rd.index_range, a) ==> !section_owns(nl, a),
    ensures
        section_self_disjoint(nl.push(Some(rd))),
{
    let nl1 = nl.push(Some(rd));
    assert forall|j1: int, j2: int|
        0 <= j1 < nl1.len() && 0 <= j2 < nl1.len() && (#[trigger] nl1[j1]) is Some && (
        #[trigger] nl1[j2]) is Some implies {
        &&& spans_disjoint(nl1[j1]->Some_0.vertex_range, nl1[j2]->Some_0.index_range)
        &&& (j1 != j2 ==> spans_disjoint(
            nl1[j1]->Some_0.vertex_range,
            nl1[j2]->Some_0.vertex_range,
        ) && spans_disjoint(nl1[j1]->Some_0.index_range, nl1[j2]->Some_0.index_range))
    } by {
        if j1 < nl.len() && j2 < nl.len() {
            assert(nl[j1] == nl1[j1] && nl[j2] == nl1[j2]);
        } else if j1 == nl.len() && j2 == nl.len() {
            assert(nl1[j1]->Some_0 == rd);
        } else if j1 == nl.len() {
            let t = nl1[j2]->Some_0;
            assert(nl[j2] == nl1[j2]);
            assert forall|a: int|
                span_has(rd.vertex_range, a) || span_has(rd.index_range, a) implies !span_has(
                t.vertex_range,
                a,
            ) && !span_has(t.index_range, a) by {
                if span_has(t.vertex_range, a) || span_has(t.index_range, a) {
                    assert(section_owns(nl, a)) by {
                        assert((nl[j2]) is Some && (span_has(nl[j2]->Some_0.vertex_range, a)
                            || span_has(nl[j2]->Some_0.index_range, a)));
                    }
                    assert(false);
                }
            }
            lemma_pointwise_disjoint(rd.vertex_range, t.index_range);
            lemma_pointwise_disjoint(rd.vertex_range, t.vertex_range);
            lemma_pointwise_disjoint(rd.index_range, t.index_range);
        } else {
            let t = nl1[j1]->Some_0;
            assert(nl[j1] == nl1[j1]);
            assert forall|a: int|
                span_has(t.vertex_range, a) || span_has(t.index_range, a) implies !span_has(
                rd.vertex_range,
                a,
            ) && !span_has(rd.index_range, a) by {
                if span_has(rd.vertex_range, a) || span_has(rd.index_range, a) {
                    assert(section_owns(nl, a)) by {
                        assert((nl[j1]) is Some && (span_has(nl[j1]->Some_0.vertex_range, a)
                            || span_has(nl[j1]->Some_0.index_range, a)));
                    }
                    assert(false);
                }
            }
            lemma_pointwise_disjoint(t.vertex_range, rd.index_range);
            lemma_pointwise_disjoint(t.vertex_range, rd.vertex_range);
            lemma_pointwise_disjoint(t.index_range, rd.index_range);
        }
    }
}

/// An element-wise copy of a section's slot vector.
pub fn copy_layers(src: &Vec<Option<RangeDescriptor>>) -> (r: Vec<Option<RangeDescriptor>>)
    ensures
        r@ == src@,
{
    let mut r: Vec<Option<RangeDescriptor>> = Vec::new();
    let mut j: usize = 0;
    while j < src.len()
        invariant
            j <= src@.len(),
            r@ == src@.take(j as int),
        decreases src@.len() - j,
    {
        r.push(src[j]);
        proof {
            assert(src@.take(j as int).push(src@[j as int]) =~= src@.take(j as int + 1));
        }
        j = j + 1;
    }
    proof {
        assert(src@.take(src@.len() as int) =~= src@);
    }
    r
}

} // verus!
