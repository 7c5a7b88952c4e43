use vstd::pervasive::VecAdditionalExecFns;
use vstd::prelude::*;

use crate::range::{lemma_overlap_has_common, span_has, spans_disjoint, Span};

verus! {

/// The chunk buffer could not provide space: no vacated range fits the
/// request and the buffer may not grow far enough.
#[derive(Clone, Copy, PartialEq, Eq, Structural, Debug)]
pub enum SpaceError {
    Exhausted,
}

/// First-fit sub-allocator for byte ranges of one large buffer.
///
/// `cap` is the buffer's current size in bytes; the buffer may grow up
/// to `max`.  `free` holds the vacated ranges available for reuse;
/// every byte of `[0, cap)` outside `free` is owned by some caller.
pub struct RangeAllocator {
    pub max: usize,
    pub cap: usize,
    pub free: Vec<Span>,
}

/// Going from `pre` to `post`, the available addresses lost exactly the
/// span `s`.
pub open spec fn avail_shrunk_by(pre: RangeAllocator, post: RangeAllocator, s: Span) -> bool {
    forall|a: int| post.avail(a) <==> pre.avail(a) && !span_has(s, a)
}

/// Going from `pre` to `post`, the available addresses gained exactly
/// the span `s`.
pub open spec fn avail_grown_by(pre: RangeAllocator, post: RangeAllocator, s: Span) -> bool {
    forall|a: int| #![trigger post.avail(a)] post.avail(a) <==> pre.avail(a) || span_has(s, a)
}

/// Every byte of `s` was available in `pre`.
pub open spec fn taken_from(pre: RangeAllocator, s: Span) -> bool {
    forall|a: int| span_has(s, a) ==> pre.avail(a)
}

impl RangeAllocator {
    /// Free-list entries are nonempty, lie inside the buffer, and are
    /// pairwise disjoint.
    pub open spec fn wf(self) -> bool {
        &&& self.cap <= self.max
        &&& forall|i: int|
            0 <= i < self.free@.len() ==> (#[trigger] self.free@[i]).len > 0
                && self.free@[i].start + self.free@[i].len <= self.cap
        &&& forall|i: int, j: int|
            0 <= i < self.free@.len() && 0 <= j < self.free@.len() && i != j ==> spans_disjoint(
                #[trigger] self.free@[i],
                #[trigger] self.free@[j],
            )
    }

    /// A byte address the allocator may still hand out: part of a free
    /// range, or part of the growth headroom past the current end.
    pub open spec fn avail(self, a: int) -> bool {
        (self.cap <= a < self.max) || exists|i: int|
            0 <= i < self.free@.len() && span_has(#[trigger] self.free@[i], a)
    }

    /// No free range is large enough and the buffer cannot grow by `n`:
    /// exactly the situation in which an allocation is refused.
    pub open spec fn no_fit(self, n: int) -> bool {
        &&& forall|i: int| 0 <= i < self.free@.len() ==> (#[trigger] self.free@[i]).len < n
        &&& self.cap + n > self.max
    }

    /// An empty buffer that may grow up to `max_capacity` bytes.
    pub fn new(max_capacity: usize) -> (r: RangeAllocator)
        ensures
            r.wf(),
            r.max == max_capacity,
            r.cap == 0,
            r.free@.len() == 0,
            forall|a: int| r.avail(a) <==> 0 <= a < max_capacity,
    {
        RangeAllocator { max: max_capacity, cap: 0, free: Vec::new() }
    }

    /// Claim a range of exactly `n` bytes: first fit over the free
    /// list, else growth at the end of the buffer.  On success the
    /// returned range leaves the available space; the buffer grows by
    /// at most `n`.  Fails exactly when nothing fits.
    pub fn allocate(&mut self, n: usize) -> (r: Result<Span, SpaceError>)
        requires
            old(self).wf(),
            n > 0,
        ensures
            final(self).wf(),
            final(self).max == old(self).max,
            match r {
                Ok(s) => {
                    &&& s.len == n
                    &&& s.start + s.len <= final(self).cap
                    &&& old(self).cap <= final(self).cap
                    &&& final(self).cap <= old(self).cap + n
                    &&& !old(self).no_fit(n as int)
                    &&& taken_from(*old(self), s)
                    &&& avail_shrunk_by(*old(self), *final(self), s)
                },
                Err(_) => {
                    &&& *final(self) == *old(self)
                    &&& old(self).no_fit(n as int)
                },
            },
    {
        let mut i: usize = 0;
        while i < self.free.len()
            invariant
                old(self).wf(),
                n > 0,
                *self == *old(self),
                i <= self.free@.len(),
                forall|k: int| 0 <= k < i ==> (#[trigger] self.free@[k]).len < n,
            decreases self.free@.len() - i,
        {
            if self.free[i].len >= n {
                let f = self.free[i];
                let s = Span { start: f.start, len: n };
                if f.len == n {
                    let _last = self.free.swap_remove(i);
                    proof {
                        let pre = old(self).free@;
                        let post = self.free@;
                        assert forall|k: int| 0 <= k < post.len() implies post[k] == (if k == i {
                            pre[pre.len() - 1]
                        } else {
                            pre[k]
                        }) by {}
                        assert forall|a: int|
                            self.avail(a) <==> old(self).avail(a) && !span_has(s, a) by {
                            if self.avail(a) && !(self.cap <= a < self.max) {
                                let k = choose|k: int|
                                    0 <= k < post.len() && span_has(#[trigger] post[k], a);
                                let m: int = if k == i {
                                    pre.len() - 1
                                } else {
                                    k
                                };
                                assert(span_has(pre[m], a));
                                assert(m != i);
                                assert(spans_disjoint(pre[m], pre[i as int]));
                                assert(old(self).avail(a) && !span_has(s, a));
                            }
                            if old(self).avail(a) && !span_has(s, a) && !(self.cap <= a
                                < self.max) {
                                let m = choose|m: int|
                                    0 <= m < pre.len() && span_has(#[trigger] pre[m], a);
                                assert(m != i);
                                let k: int = if m == pre.len() - 1 {
                                    i as int
                                } else {
                                    m
                                };
                                assert(span_has(post[k], a));
                                assert(self.avail(a));
                            }
                        }
                        assert(avail_shrunk_by(*old(self), *self, s));
                        assert(taken_from(*old(self), s));
                    }
                    return Ok(s);
                } else {
                    let rem = Span { start: f.start + n, len: f.len - n };
                    self.free.set(i, rem);
                    proof {
                        let pre = old(self).free@;
                        let post = self.free@;
                        assert forall|a: int|
                            self.avail(a) <==> old(self).avail(a) && !span_has(s, a) by {
                            if self.avail(a) && !(self.cap <= a < self.max) {
                                let k = choose|k: int|
                                    0 <= k < post.len() && span_has(#[trigger] post[k], a);
                                if k != i {
                                    assert(spans_disjoint(pre[k], pre[i as int]));
                                }
                                assert(span_has(pre[k], a));
                                assert(old(self).avail(a) && !span_has(s, a));
                            }
                            if old(self).avail(a) && !span_has(s, a) && !(self.cap <= a
                                < self.max) {
                                let m = choose|m: int|
                                    0 <= m < pre.len() && span_has(#[trigger] pre[m], a);
                                assert(span_has(post[m], a));
                                assert(self.avail(a));
                            }
                        }
                        assert forall|k: int, j: int|
                            0 <= k < post.len() && 0 <= j < post.len() && k
                            != j implies spans_disjoint(post[k], post[j]) by {
                            assert(spans_disjoint(pre[k], pre[j]));
                        }
                        assert(avail_shrunk_by(*old(self), *self, s));
                        assert(taken_from(*old(self), s));
                    }
                    return Ok(s);
                }
            }
            i += 1;
        }
        if n <= self.max - self.cap {
            let s = Span { start: self.cap, len: n };
            self.cap = self.cap + n;
            proof {
                assert forall|a: int|
                    self.avail(a) <==> old(self).avail(a) && !span_has(s, a) by {
                    if self.avail(a) && !(self.cap <= a < self.max) {
                        let k = choose|k: int|
                            0 <= k < self.free@.len() && span_has(#[trigger] self.free@[k], a);
                        assert(span_has(old(self).free@[k], a));
                        assert(old(self).free@[k].start + old(self).free@[k].len <= old(
                            self,
                        ).cap);
                        assert(old(self).avail(a) && !span_has(s, a));
                    }
                    if old(self).avail(a) && !span_has(s, a) && !(self.cap <= a < self.max) {
                        if !(old(self).cap <= a < old(self).max) {
                            let m = choose|m: int|
                                0 <= m < old(self).free@.len() && span_has(
                                    #[trigger] old(self).free@[m],
                                    a,
                                );
                            assert(span_has(self.free@[m], a));
                            assert(self.avail(a));
                        }
                    }
                }
                assert(avail_shrunk_by(*old(self), *self, s));
                assert(taken_from(*old(self), s));
            }
            return Ok(s);
        }
        Err(SpaceError::Exhausted)
    }

    /// Hand a range back for reuse.  The range must be owned: none of
    /// its bytes may still be available.
    pub fn release(&mut self, s: Span)
        requires
            old(self).wf(),
            s.len > 0,
            s.start + s.len <= old(self).cap,
            forall|a: int| span_has(s, a) ==> !old(self).avail(a),
        ensures
            final(self).wf(),
            final(self).max == old(self).max,
            final(self).cap == old(self).cap,
            avail_grown_by(*old(self), *final(self), s),
    {
        proof {
            assert forall|j: int| 0 <= j < self.free@.len() implies spans_disjoint(
                s,
                self.free@[j],
            ) by {
                if !spans_disjoint(s, self.free@[j]) {
                    lemma_overlap_has_common(s, self.free@[j]);
                    let x = choose|x: int| span_has(s, x) && span_has(self.free@[j], x);
                    assert(old(self).avail(x));
                    assert(false);
                }
            }
        }
        self.free.push(s);
        proof {
            let pre = old(self).free@;
            let post = self.free@;
            assert(avail_grown_by(*old(self), *self, s)) by {
                assert forall|a: int| #![trigger self.avail(a)]
                    self.avail(a) <==> old(self).avail(a) || span_has(s, a) by {
                    if self.avail(a) && !(self.cap <= a < self.max) {
                        let k = choose|k: int|
                            0 <= k < post.len() && span_has(#[trigger] post[k], a);
                        if k < pre.len() {
                            assert(span_has(pre[k], a));
                            assert(old(self).avail(a));
                        } else {
                            assert(post[k] == s);
                            assert(span_has(s, a));
                        }
                    }
                    if old(self).avail(a) && !(self.cap <= a < self.max) {
                        let m = choose|m: int| 0 <= m < pre.len() && span_has(#[trigger] pre[m], a);
                        assert(span_has(post[m], a));
                        assert(self.avail(a));
                    }
                    if span_has(s, a) {
                        assert(span_has(post[post.len() - 1], a));
                        assert(self.avail(a));
                    }
                }
            }
        }
    }

    /// The buffer's current size in bytes.
    pub fn capacity(&self) -> (r: usize)
        ensures
            r == self.cap,
    {
        self.cap
    }

    /// The size the buffer may grow to.
    pub fn max_capacity(&self) -> (r: usize)
        ensures
            r == self.max,
    {
        self.max
    }
}

} // verus!
