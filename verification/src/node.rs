//! Identity and per-port buffers of a node.

use vstd::prelude::*;
use crate::BUFFER_SIZE;
use crate::sample::ZERO_BITS;

verus! {

/// Stable handle of a node: a monotonically increasing integer, unique for
/// the lifetime of the graph and never reused.
#[derive(PartialEq, Eq, Structural, Hash, Copy, Clone, Debug)]
pub struct NodeId(pub usize);

/// Whether a sample sequence is one block of silence.
pub open spec fn is_silent_block(s: Seq<u32>) -> bool {
    s.len() == BUFFER_SIZE && forall|i: int| 0 <= i < s.len() ==> s[i] == ZERO_BITS
}

/// One input port's block buffer.
pub struct NodeIn {
    pub buffer: Vec<u32>,
}

/// One output port's block buffer.
pub struct NodeOut {
    pub buffer: Vec<u32>,
}

/// A fresh run of `n` silent samples.
pub(crate) fn zero_samples(n: usize) -> (v: Vec<u32>)
    ensures
        v@.len() == n,
        forall|i: int| 0 <= i < v@.len() ==> v@[i] == ZERO_BITS,
{
    let v: Vec<u32> = vec![ZERO_BITS; n];
    proof {
        assert forall|i: int| 0 <= i < v@.len() implies v@[i] == ZERO_BITS by {
            assert(cloned(ZERO_BITS, v@[i]));
        }
    }
    v
}

/// A fresh block buffer holding silence.
pub(crate) fn zero_buffer() -> (v: Vec<u32>)
    ensures
        is_silent_block(v@),
{
    zero_samples(BUFFER_SIZE)
}

impl NodeIn {
    pub(crate) fn new() -> (r: NodeIn)
        ensures
            is_silent_block(r.buffer@),
    {
        NodeIn { buffer: zero_buffer() }
    }
}

impl NodeOut {
    pub(crate) fn new() -> (r: NodeOut)
        ensures
            is_silent_block(r.buffer@),
    {
        NodeOut { buffer: zero_buffer() }
    }
}

/// A fresh copy of one buffer's samples.
pub(crate) fn copy_samples(src: &Vec<u32>) -> (r: Vec<u32>)
    ensures
        r@ == src@,
{
    let mut r: Vec<u32> = Vec::new();
    let mut i: usize = 0;
    while i < src.len()
        invariant
            i <= src@.len(),
            r@.len() == i,
            forall|m: int| 0 <= m < i ==> r@[m] == src@[m],
        decreases src@.len() - i,
    {
        r.push(src[i]);
        i += 1;
    }
    proof {
        assert(r@ =~= src@);
    }
    r
}

/// The descriptor a behavior exposes: its type name and its fixed port
/// counts.
pub struct NodeBehaviorInfo {
    pub kind_name: String,
    pub num_ins: usize,
    pub num_outs: usize,
}

/// The buffer views of a row of input ports.
pub open spec fn in_views(ins: Seq<NodeIn>) -> Seq<Seq<u32>> {
    Seq::new(ins.len(), |i: int| ins[i].buffer@)
}

/// The buffer views of a row of output ports.
pub open spec fn out_views(outs: Seq<NodeOut>) -> Seq<Seq<u32>> {
    Seq::new(outs.len(), |i: int| outs[i].buffer@)
}

} // verus!
