use vstd::pervasive::VecAdditionalExecFns;
use vstd::prelude::*;

verus! {

/// In-memory image of the one large GPU chunk buffer: vertex and index
/// bytes of all resident sections, addressed through the ranges that
/// section storage hands out.
pub struct ChunkBuffer {
    pub data: Vec<u8>,
}

/// Effect of a byte-exact write of `bytes` at `offset`: the target
/// range holds the new bytes, every other byte is kept, and when the
/// buffer had to grow, the gap is zero-filled.
pub open spec fn written(pre: Seq<u8>, post: Seq<u8>, offset: int, bytes: Seq<u8>) -> bool {
    &&& post.len() == (if pre.len() >= offset + bytes.len() {
        pre.len() as int
    } else {
        offset + bytes.len()
    })
    &&& forall|k: int| 0 <= k < bytes.len() ==> post[offset + k] == bytes[k]
    &&& forall|k: int|
        0 <= k < pre.len() && !(offset <= k < offset + bytes.len()) ==> post[k] == pre[k]
    &&& forall|k: int|
        pre.len() <= k < post.len() && !(offset <= k < offset + bytes.len()) ==> post[k] == 0
}

impl ChunkBuffer {
    /// An empty chunk buffer.
    pub fn new() -> (r: ChunkBuffer)
        ensures
            r.data@.len() == 0,
    {
        ChunkBuffer { data: Vec::new() }
    }

    /// Byte-exact write of `bytes` at byte offset `offset`, extending
    /// the buffer with zeroes first when it is too short.
    #[verifier::loop_isolation(false)]
    pub fn write_at(&mut self, offset: usize, bytes: &Vec<u8>)
        requires
            offset + bytes@.len() <= usize::MAX,
        ensures
            written(old(self).data@, final(self).data@, offset as int, bytes@),
    {
        let ghost pre = self.data@;
        let end = offset + bytes.len();
        while self.data.len() < end
            invariant
                pre.len() <= self.data@.len(),
                self.data@.len() <= (if pre.len() >= end {
                    pre.len() as int
                } else {
                    end as int
                }),
                forall|k: int| 0 <= k < pre.len() ==> self.data@[k] == pre[k],
                forall|k: int| pre.len() <= k < self.data@.len() ==> self.data@[k] == 0,
            decreases end - self.data@.len(),
        {
            self.data.push(0);
        }
        let mut t: usize = 0;
        while t < bytes.len()
            invariant
                t <= bytes@.len(),
                self.data@.len() == (if pre.len() >= end {
                    pre.len() as int
                } else {
                    end as int
                }),
                offset + bytes@.len() <= self.data@.len(),
                forall|k: int| 0 <= k < t ==> self.data@[offset + k] == bytes@[k],
                forall|k: int|
                    0 <= k < pre.len() && !(offset <= k < offset + t) ==> self.data@[k] == pre[k],
                forall|k: int|
                    pre.len() <= k < self.data@.len() && !(offset <= k < offset + t)
                        ==> self.data@[k] == 0,
            decreases bytes@.len() - t,
        {
            self.data.set(offset + t, bytes[t]);
            t = t + 1;
        }
        proof {
            assert(written(pre, self.data@, offset as int, bytes@));
        }
    }
}

} // verus!
