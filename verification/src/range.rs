use vstd::prelude::*;

verus! {

/// A contiguous run of byte offsets inside the chunk buffer: the
/// half-open interval `[start, start + len)`.
#[derive(Clone, Copy, PartialEq, Eq, Structural, Debug)]
pub struct Span {
    pub start: usize,
    pub len: usize,
}

/// `a` is one of the byte addresses the span covers.
pub open spec fn span_has(s: Span, a: int) -> bool {
    s.start <= a < s.start + s.len
}

/// The two spans cover no common byte address.
pub open spec fn spans_disjoint(a: Span, b: Span) -> bool {
    a.start + a.len <= b.start || b.start + b.len <= a.start
}

/// Two nonempty spans that are not disjoint share a concrete address.
pub proof fn lemma_overlap_has_common(a: Span, b: Span)
    requires
        a.len > 0,
        b.len > 0,
        !spans_disjoint(a, b),
    ensures
        exists|x: int| span_has(a, x) && span_has(b, x),
{
    let x: int = if a.start >= b.start {
        a.start as int
    } else {
        b.start as int
    };
    assert(span_has(a, x) && span_has(b, x));
}

/// Two nonempty spans with no common address are disjoint.
pub proof fn lemma_pointwise_disjoint(x: Span, y: Span)
    requires
        x.len > 0,
        y.len > 0,
        forall|a: int| span_has(x, a) ==> !span_has(y, a),
    ensures
        spans_disjoint(x, y),
{
    if !spans_disjoint(x, y) {
        lemma_overlap_has_common(x, y);
        let w = choose|w: int| span_has(x, w) && span_has(y, w);
        assert(false);
    }
}

/// Where one layer of a chunk section lives in the chunk buffer: one
/// span for its vertex bytes and one for its index bytes.
#[derive(Clone, Copy, PartialEq, Eq, Structural, Debug)]
pub struct RangeDescriptor {
    pub vertex_range: Span,
    pub index_range: Span,
}

} // verus!
