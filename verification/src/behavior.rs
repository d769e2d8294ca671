//! Unit generators: the behaviors a node can carry.
//!
//! Every behavior fills each of its output buffers with one block of
//! samples from its input buffers. The exact sample-level result is
//! stated by [`behavior_post`], composed from the named IEEE operations
//! in [`crate::sample`].

use vstd::prelude::*;
use vstd::pervasive::VecAdditionalExecFns;
use crate::BUFFER_SIZE;
use crate::node::{NodeIn, NodeOut, NodeBehaviorInfo, in_views, out_views, is_silent_block};
use crate::sample::{
    ZERO_BITS, ONE_BITS, SAMPLE_RATE_BITS, SIGN_MASK, is_nan_sample, add_sample, mul_sample,
    sine_at_phase, next_phase, add_bits, mul_bits, fmod_bits, sine_at_phase_bits,
};

verus! {

/// The running sum of the first `k` input buffers at sample `n`, added in
/// port order starting from silence.
pub open spec fn sum_prefix(ins: Seq<Seq<u32>>, k: int, n: int) -> u32
    decreases k,
{
    if k <= 0 {
        ZERO_BITS
    } else {
        add_sample(sum_prefix(ins, k - 1, n), ins[k - 1][n])
    }
}

/// The running product of the first `k` input buffers at sample `n`,
/// multiplied in port order starting from one.
pub open spec fn product_prefix(ins: Seq<Seq<u32>>, k: int, n: int) -> u32
    decreases k,
{
    if k <= 0 {
        ONE_BITS
    } else {
        mul_sample(product_prefix(ins, k - 1, n), ins[k - 1][n])
    }
}

/// The block a sum node emits: the per-sample sum over all inputs.
pub open spec fn sum_block(ins: Seq<Seq<u32>>) -> Seq<u32> {
    Seq::new(BUFFER_SIZE as nat, |n: int| sum_prefix(ins, ins.len() as int, n))
}

/// The block a product node emits: the per-sample product over all inputs.
pub open spec fn product_block(ins: Seq<Seq<u32>>) -> Seq<u32> {
    Seq::new(BUFFER_SIZE as nat, |n: int| product_prefix(ins, ins.len() as int, n))
}

/// The block a waveform node emits: its table read cyclically.
pub open spec fn waveform_block(table: Seq<u32>) -> Seq<u32> {
    Seq::new(BUFFER_SIZE as nat, |n: int| table[n % (table.len() as int)])
}

/// The oscillator phase before sample `n`, after folding in the first `n`
/// frequency samples.
pub open spec fn sin_phase_at(phase0: u32, freq: Seq<u32>, n: int) -> u32
    decreases n,
{
    if n <= 0 {
        phase0
    } else {
        next_phase(sin_phase_at(phase0, freq, n - 1), freq[n - 1])
    }
}

/// The block a sine node emits from starting phase `phase0` and the
/// frequency input `freq`.
pub open spec fn sin_block(phase0: u32, freq: Seq<u32>) -> Seq<u32> {
    Seq::new(BUFFER_SIZE as nat, |n: int| sine_at_phase(sin_phase_at(phase0, freq, n)))
}

/// Left and right blocks interleaved into one stereo block of twice the
/// length.
pub open spec fn interleave_block(l: Seq<u32>, r: Seq<u32>) -> Seq<u32> {
    Seq::new((2 * BUFFER_SIZE) as nat, |i: int| if i % 2 == 0 { l[i / 2] } else { r[i / 2] })
}

/// Taking the first port out, rewriting its buffer, and putting it back
/// changes exactly the first slot.
proof fn lemma_first_slot_back(pre: Seq<NodeOut>, post: Seq<NodeOut>, first: NodeOut)
    requires
        pre.len() >= 1,
        post == pre.remove(0).insert(0, first),
    ensures
        post.len() == pre.len(),
        post[0] == first,
        forall|j: int| 1 <= j < post.len() ==> post[j] == pre[j],
{
    pre.remove(0).insert_ensures(0, first);
    assert forall|j: int| 1 <= j < post.len() implies post[j] == pre[j] by {
        assert(post[j] == pre.remove(0)[j - 1]);
        assert(pre.remove(0)[j - 1] == pre[j]);
    }
}

/// Per-sample sum over every input port; one output.
pub struct SumNode {
    pub num_ins: usize,
}

impl SumNode {
    pub fn new(num_ins: usize) -> (r: SumNode)
        ensures
            r == (SumNode { num_ins }),
    {
        SumNode { num_ins }
    }

    pub fn get_info(&self) -> (info: NodeBehaviorInfo)
        ensures
            info.kind_name@ == "SumNode"@,
            info.num_ins == self.num_ins,
            info.num_outs == 1,
    {
        NodeBehaviorInfo { kind_name: "SumNode".to_owned(), num_ins: self.num_ins, num_outs: 1 }
    }

    pub fn update(&mut self, inputs: &Vec<NodeIn>, outputs: &mut Vec<NodeOut>)
        requires
            forall|i: int|
                0 <= i < inputs@.len() ==> (#[trigger] inputs@[i]).buffer@.len() == BUFFER_SIZE,
            old(outputs)@.len() >= 1,
            old(outputs)@[0].buffer@.len() == BUFFER_SIZE,
        ensures
            *final(self) == *old(self),
            final(outputs)@.len() == old(outputs)@.len(),
            final(outputs)@[0].buffer@ == sum_block(in_views(inputs@)),
            forall|j: int| 1 <= j < final(outputs)@.len() ==> final(outputs)@[j] == old(outputs)@[j],
    {
        let ghost views = in_views(inputs@);
        let mut first = outputs.remove(0);
        let mut n: usize = 0;
        while n < BUFFER_SIZE
            invariant
                n <= BUFFER_SIZE,
                first.buffer@.len() == BUFFER_SIZE,
                outputs@ == old(outputs)@.remove(0),
                views == in_views(inputs@),
                forall|i: int|
                    0 <= i < inputs@.len() ==> (#[trigger] inputs@[i]).buffer@.len()
                        == BUFFER_SIZE,
                forall|m: int|
                    0 <= m < n ==> first.buffer@[m] == sum_prefix(views, views.len() as int, m),
            decreases BUFFER_SIZE - n,
        {
            let mut acc: u32 = ZERO_BITS;
            let mut i: usize = 0;
            while i < inputs.len()
                invariant
                    i <= inputs@.len(),
                    n < BUFFER_SIZE,
                    views == in_views(inputs@),
                    forall|j: int|
                        0 <= j < inputs@.len() ==> (#[trigger] inputs@[j]).buffer@.len()
                            == BUFFER_SIZE,
                    acc == sum_prefix(views, i as int, n as int),
                decreases inputs@.len() - i,
            {
                acc = add_bits(acc, inputs[i].buffer[n]);
                i += 1;
            }
            first.buffer.set(n, acc);
            n += 1;
        }
        proof {
            assert(first.buffer@ =~= sum_block(views));
        }
        let ghost done = first;
        outputs.insert(0, first);
        proof {
            lemma_first_slot_back(old(outputs)@, outputs@, done);
        }
    }

    pub fn before_drop(&mut self)
        ensures
            *final(self) == *old(self),
    {
    }
}

/// Per-sample product over every input port; one output.
pub struct ProductNode {
    pub num_ins: usize,
}

impl ProductNode {
    pub fn new(num_ins: usize) -> (r: ProductNode)
        ensures
            r == (ProductNode { num_ins }),
    {
        ProductNode { num_ins }
    }

    pub fn get_info(&self) -> (info: NodeBehaviorInfo)
        ensures
            info.kind_name@ == "ProductNode"@,
            info.num_ins == self.num_ins,
            info.num_outs == 1,
    {
        NodeBehaviorInfo { kind_name: "ProductNode".to_owned(), num_ins: self.num_ins, num_outs: 1 }
    }

    pub fn update(&mut self, inputs: &Vec<NodeIn>, outputs: &mut Vec<NodeOut>)
        requires
            forall|i: int|
                0 <= i < inputs@.len() ==> (#[trigger] inputs@[i]).buffer@.len() == BUFFER_SIZE,
            old(outputs)@.len() >= 1,
            old(outputs)@[0].buffer@.len() == BUFFER_SIZE,
        ensures
            *final(self) == *old(self),
            final(outputs)@.len() == old(outputs)@.len(),
            final(outputs)@[0].buffer@ == product_block(in_views(inputs@)),
            forall|j: int| 1 <= j < final(outputs)@.len() ==> final(outputs)@[j] == old(outputs)@[j],
    {
        let ghost views = in_views(inputs@);
        let mut first = outputs.remove(0);
        let mut n: usize = 0;
        while n < BUFFER_SIZE
            invariant
                n <= BUFFER_SIZE,
                first.buffer@.len() == BUFFER_SIZE,
                outputs@ == old(outputs)@.remove(0),
                views == in_views(inputs@),
                forall|i: int|
                    0 <= i < inputs@.len() ==> (#[trigger] inputs@[i]).buffer@.len()
                        == BUFFER_SIZE,
                forall|m: int|
                    0 <= m < n ==> first.buffer@[m] == product_prefix(views, views.len() as int, m),
            decreases BUFFER_SIZE - n,
        {
            let mut acc: u32 = ONE_BITS;
            let mut i: usize = 0;
            while i < inputs.len()
                invariant
                    i <= inputs@.len(),
                    n < BUFFER_SIZE,
                    views == in_views(inputs@),
                    forall|j: int|
                        0 <= j < inputs@.len() ==> (#[trigger] inputs@[j]).buffer@.len()
                            == BUFFER_SIZE,
                    acc == product_prefix(views, i as int, n as int),
                decreases inputs@.len() - i,
            {
                acc = mul_bits(acc, inputs[i].buffer[n]);
                i += 1;
            }
            first.buffer.set(n, acc);
            n += 1;
        }
        proof {
            assert(first.buffer@ =~= product_block(views));
        }
        let ghost done = first;
        outputs.insert(0, first);
        proof {
            lemma_first_slot_back(old(outputs)@, outputs@, done);
        }
    }

    pub fn before_drop(&mut self)
        ensures
            *final(self) == *old(self),
    {
    }
}

/// A fixed table emitted cyclically; zero inputs, one output.
pub struct WaveformNode {
    pub waveform: Vec<u32>,
}

impl WaveformNode {
    pub fn new(waveform: Vec<u32>) -> (r: WaveformNode)
        requires
            waveform@.len() >= 1,
        ensures
            r.waveform == waveform,
    {
        WaveformNode { waveform }
    }

    pub fn get_info(&self) -> (info: NodeBehaviorInfo)
        ensures
            info.kind_name@ == "WaveformNode"@,
            info.num_ins == 0,
            info.num_outs == 1,
    {
        NodeBehaviorInfo { kind_name: "WaveformNode".to_owned(), num_ins: 0, num_outs: 1 }
    }

    pub fn update(&mut self, inputs: &Vec<NodeIn>, outputs: &mut Vec<NodeOut>)
        requires
            old(self).waveform@.len() >= 1,
            old(outputs)@.len() >= 1,
            old(outputs)@[0].buffer@.len() == BUFFER_SIZE,
        ensures
            *final(self) == *old(self),
            final(outputs)@.len() == old(outputs)@.len(),
            final(outputs)@[0].buffer@ == waveform_block(old(self).waveform@),
            forall|j: int| 1 <= j < final(outputs)@.len() ==> final(outputs)@[j] == old(outputs)@[j],
    {
        let k = self.waveform.len();
        let mut first = outputs.remove(0);
        let mut n: usize = 0;
        while n < BUFFER_SIZE
            invariant
                n <= BUFFER_SIZE,
                first.buffer@.len() == BUFFER_SIZE,
                outputs@ == old(outputs)@.remove(0),
                k == self.waveform@.len(),
                k >= 1,
                *self == *old(self),
                forall|m: int|
                    0 <= m < n ==> first.buffer@[m] == self.waveform@[m % (
                    self.waveform@.len() as int)],
            decreases BUFFER_SIZE - n,
        {
            first.buffer.set(n, self.waveform[n % k]);
            n += 1;
        }
        proof {
            assert(first.buffer@ =~= waveform_block(old(self).waveform@));
        }
        let ghost done = first;
        outputs.insert(0, first);
        proof {
            lemma_first_slot_back(old(outputs)@, outputs@, done);
        }
    }

    pub fn before_drop(&mut self)
        ensures
            *final(self) == *old(self),
    {
    }
}

/// A sine oscillator driven by a per-sample frequency input; the phase
/// accumulator survives across blocks.
pub struct SinNode {
    pub clock: u32,
}

impl SinNode {
    pub fn new() -> (r: SinNode)
        ensures
            r == (SinNode { clock: ZERO_BITS }),
    {
        SinNode { clock: ZERO_BITS }
    }

    pub fn get_info(&self) -> (info: NodeBehaviorInfo)
        ensures
            info.kind_name@ == "SinNode"@,
            info.num_ins == 1,
            info.num_outs == 1,
    {
        NodeBehaviorInfo { kind_name: "SinNode".to_owned(), num_ins: 1, num_outs: 1 }
    }

    pub fn update(&mut self, inputs: &Vec<NodeIn>, outputs: &mut Vec<NodeOut>)
        requires
            inputs@.len() >= 1,
            inputs@[0].buffer@.len() == BUFFER_SIZE,
            old(outputs)@.len() >= 1,
            old(outputs)@[0].buffer@.len() == BUFFER_SIZE,
        ensures
            *final(self) == (SinNode {
                clock: sin_phase_at(old(self).clock, inputs@[0].buffer@, BUFFER_SIZE as int),
            }),
            final(outputs)@.len() == old(outputs)@.len(),
            final(outputs)@[0].buffer@ == sin_block(old(self).clock, inputs@[0].buffer@),
            forall|j: int| 1 <= j < final(outputs)@.len() ==> final(outputs)@[j] == old(outputs)@[j],
            old(self).clock < SAMPLE_RATE_BITS && is_silent_block(inputs@[0].buffer@) ==> {
                &&& final(self).clock == old(self).clock
                &&& forall|m: int|
                    0 <= m < BUFFER_SIZE ==> final(outputs)@[0].buffer@[m] == sine_at_phase(
                        old(self).clock,
                    )
            },
    {
        let ghost phase0 = old(self).clock;
        let ghost freq = inputs@[0].buffer@;
        let mut first = outputs.remove(0);
        let mut n: usize = 0;
        while n < BUFFER_SIZE
            invariant
                n <= BUFFER_SIZE,
                first.buffer@.len() == BUFFER_SIZE,
                outputs@ == old(outputs)@.remove(0),
                inputs@.len() >= 1,
                freq == inputs@[0].buffer@,
                freq.len() == BUFFER_SIZE,
                self.clock == sin_phase_at(phase0, freq, n as int),
                forall|m: int|
                    0 <= m < n ==> first.buffer@[m] == sine_at_phase(sin_phase_at(phase0, freq, m)),
                phase0 < SAMPLE_RATE_BITS && is_silent_block(freq) ==> self.clock == phase0,
                phase0 < SAMPLE_RATE_BITS && is_silent_block(freq) ==> forall|m: int|
                    0 <= m < n ==> first.buffer@[m] == sine_at_phase(phase0),
            decreases BUFFER_SIZE - n,
        {
            let ghost c0 = self.clock;
            let s = sine_at_phase_bits(self.clock);
            first.buffer.set(n, s);
            let f = inputs[0].buffer[n];
            self.clock = fmod_bits(add_bits(self.clock, f), SAMPLE_RATE_BITS);
            proof {
                if phase0 < SAMPLE_RATE_BITS && is_silent_block(freq) {
                    assert(f == freq[n as int]);
                    assert(f == ZERO_BITS);
                    assert(c0 == phase0);
                    // a phase below the sample rate is neither a NaN nor
                    // negative zero, so adding silence and reducing by the
                    // sample rate both leave it alone
                    assert((c0 >> 23) & 0xFF != 0xFF) by (bit_vector)
                        requires
                            c0 < 0x472C_4400u32,
                    ;
                    assert(!is_nan_sample(c0));
                    assert(c0 != SIGN_MASK);
                    assert(self.clock == c0);
                }
            }
            n += 1;
        }
        proof {
            assert(first.buffer@ =~= sin_block(phase0, freq));
        }
        let ghost done = first;
        outputs.insert(0, first);
        proof {
            lemma_first_slot_back(old(outputs)@, outputs@, done);
        }
    }

    pub fn before_drop(&mut self)
        ensures
            *final(self) == *old(self),
    {
    }
}

/// The output-capture node: two inputs (left, right), zero outputs. Each
/// block it interleaves its inputs into a stereo capture buffer that the
/// generator pushes into the ring after the tick.
pub struct InterleavingOutputNode {
    pub capture: Vec<u32>,
}

impl InterleavingOutputNode {
    pub fn new() -> (r: InterleavingOutputNode)
        ensures
            r.capture@.len() == 2 * BUFFER_SIZE,
            forall|i: int| 0 <= i < r.capture@.len() ==> r.capture@[i] == ZERO_BITS,
    {
        InterleavingOutputNode { capture: crate::node::zero_samples(2 * BUFFER_SIZE) }
    }

    pub fn get_info(&self) -> (info: NodeBehaviorInfo)
        ensures
            info.kind_name@ == "InterleavingOutputNode"@,
            info.num_ins == 2,
            info.num_outs == 0,
    {
        NodeBehaviorInfo {
            kind_name: "InterleavingOutputNode".to_owned(),
            num_ins: 2,
            num_outs: 0,
        }
    }

    pub fn update(&mut self, inputs: &Vec<NodeIn>, outputs: &mut Vec<NodeOut>)
        requires
            inputs@.len() >= 2,
            inputs@[0].buffer@.len() == BUFFER_SIZE,
            inputs@[1].buffer@.len() == BUFFER_SIZE,
            old(self).capture@.len() == 2 * BUFFER_SIZE,
        ensures
            final(self).capture@ == interleave_block(inputs@[0].buffer@, inputs@[1].buffer@),
            *final(outputs) == *old(outputs),
    {
        let ghost l = inputs@[0].buffer@;
        let ghost r = inputs@[1].buffer@;
        let mut n: usize = 0;
        while n < BUFFER_SIZE
            invariant
                n <= BUFFER_SIZE,
                self.capture@.len() == 2 * BUFFER_SIZE,
                inputs@.len() >= 2,
                l == inputs@[0].buffer@,
                r == inputs@[1].buffer@,
                l.len() == BUFFER_SIZE,
                r.len() == BUFFER_SIZE,
                forall|m: int|
                    0 <= m < n ==> self.capture@[2 * m] == l[m] && self.capture@[2 * m + 1]
                        == r[m],
            decreases BUFFER_SIZE - n,
        {
            self.capture.set(2 * n, inputs[0].buffer[n]);
            self.capture.set(2 * n + 1, inputs[1].buffer[n]);
            n += 1;
        }
        proof {
            assert forall|i: int|
                0 <= i < 2 * BUFFER_SIZE implies self.capture@[i] == interleave_block(l, r)[i] by {
                let m = i / 2;
                if i % 2 == 0 {
                    assert(i == 2 * m);
                } else {
                    assert(i == 2 * m + 1);
                }
            }
            assert(self.capture@ =~= interleave_block(l, r));
        }
    }

    pub fn before_drop(&mut self)
        ensures
            *final(self) == *old(self),
    {
    }
}

/// A node's behavior: which unit generator it is, with that generator's
/// internal state.
pub enum NodeBehavior {
    Sum(SumNode),
    Product(ProductNode),
    Waveform(WaveformNode),
    Sin(SinNode),
    InterleavingOutput(InterleavingOutputNode),
}

impl NodeBehavior {
    /// Structural soundness of a behavior's parameters.
    pub open spec fn wf(&self) -> bool {
        match self {
            NodeBehavior::Waveform(b) => b.waveform@.len() >= 1,
            NodeBehavior::InterleavingOutput(b) => b.capture@.len() == 2 * BUFFER_SIZE,
            _ => true,
        }
    }

    /// The declared number of input ports.
    pub open spec fn spec_num_ins(&self) -> usize {
        match self {
            NodeBehavior::Sum(b) => b.num_ins,
            NodeBehavior::Product(b) => b.num_ins,
            NodeBehavior::Waveform(_) => 0,
            NodeBehavior::Sin(_) => 1,
            NodeBehavior::InterleavingOutput(_) => 2,
        }
    }

    /// The declared number of output ports.
    pub open spec fn spec_num_outs(&self) -> usize {
        match self {
            NodeBehavior::InterleavingOutput(_) => 0,
            _ => 1,
        }
    }

    /// The behavior's type name, as its descriptor reports it.
    pub open spec fn spec_kind_name(&self) -> Seq<char> {
        match self {
            NodeBehavior::Sum(_) => "SumNode"@,
            NodeBehavior::Product(_) => "ProductNode"@,
            NodeBehavior::Waveform(_) => "WaveformNode"@,
            NodeBehavior::Sin(_) => "SinNode"@,
            NodeBehavior::InterleavingOutput(_) => "InterleavingOutputNode"@,
        }
    }

    pub fn get_info(&self) -> (info: NodeBehaviorInfo)
        ensures
            info.kind_name@ == self.spec_kind_name(),
            info.num_ins == self.spec_num_ins(),
            info.num_outs == self.spec_num_outs(),
    {
        match self {
            NodeBehavior::Sum(b) => b.get_info(),
            NodeBehavior::Product(b) => b.get_info(),
            NodeBehavior::Waveform(b) => b.get_info(),
            NodeBehavior::Sin(b) => b.get_info(),
            NodeBehavior::InterleavingOutput(b) => b.get_info(),
        }
    }

    /// An exact copy of this behavior, state included.
    pub fn duplicate(&self) -> (r: NodeBehavior)
        ensures
            behavior_like(r, *self),
            r.wf() == self.wf(),
            r.spec_num_ins() == self.spec_num_ins(),
            r.spec_num_outs() == self.spec_num_outs(),
            r.spec_kind_name() == self.spec_kind_name(),
    {
        match self {
            NodeBehavior::Sum(b) => NodeBehavior::Sum(SumNode { num_ins: b.num_ins }),
            NodeBehavior::Product(b) => NodeBehavior::Product(ProductNode { num_ins: b.num_ins }),
            NodeBehavior::Waveform(b) => {
                let mut table: Vec<u32> = Vec::new();
                let mut i: usize = 0;
                while i < b.waveform.len()
                    invariant
                        i <= b.waveform@.len(),
                        table@.len() == i,
                        forall|m: int| 0 <= m < i ==> table@[m] == b.waveform@[m],
                    decreases b.waveform@.len() - i,
                {
                    table.push(b.waveform[i]);
                    i += 1;
                }
                proof {
                    assert(table@ =~= b.waveform@);
                }
                NodeBehavior::Waveform(WaveformNode { waveform: table })
            },
            NodeBehavior::Sin(b) => NodeBehavior::Sin(SinNode { clock: b.clock }),
            NodeBehavior::InterleavingOutput(b) => {
                let mut cap: Vec<u32> = Vec::new();
                let mut i: usize = 0;
                while i < b.capture.len()
                    invariant
                        i <= b.capture@.len(),
                        cap@.len() == i,
                        forall|m: int| 0 <= m < i ==> cap@[m] == b.capture@[m],
                    decreases b.capture@.len() - i,
                {
                    cap.push(b.capture[i]);
                    i += 1;
                }
                proof {
                    assert(cap@ =~= b.capture@);
                }
                NodeBehavior::InterleavingOutput(InterleavingOutputNode { capture: cap })
            },
        }
    }

    pub fn before_drop(&mut self)
        ensures
            *final(self) == *old(self),
    {
    }
}

/// Whether two behaviors are the same generator with the same state:
/// the same variant, with equal parameters and equal buffer contents.
pub open spec fn behavior_like(a: NodeBehavior, b: NodeBehavior) -> bool {
    match (a, b) {
        (NodeBehavior::Sum(x), NodeBehavior::Sum(y)) => x.num_ins == y.num_ins,
        (NodeBehavior::Product(x), NodeBehavior::Product(y)) => x.num_ins == y.num_ins,
        (NodeBehavior::Waveform(x), NodeBehavior::Waveform(y)) => x.waveform@ == y.waveform@,
        (NodeBehavior::Sin(x), NodeBehavior::Sin(y)) => x.clock == y.clock,
        (NodeBehavior::InterleavingOutput(x), NodeBehavior::InterleavingOutput(y)) => x.capture@
            == y.capture@,
        _ => false,
    }
}

/// The exact effect of one `update` of behavior `pre`: `post` is the
/// behavior afterwards, `outs_post` the output-buffer views afterwards,
/// given input views `ins` and prior output views `outs_pre`.
pub open spec fn behavior_post(
    pre: NodeBehavior,
    post: NodeBehavior,
    ins: Seq<Seq<u32>>,
    outs_pre: Seq<Seq<u32>>,
    outs_post: Seq<Seq<u32>>,
) -> bool {
    match pre {
        NodeBehavior::Sum(_) => post == pre && outs_post == outs_pre.update(0, sum_block(ins)),
        NodeBehavior::Product(_) => post == pre && outs_post == outs_pre.update(
            0,
            product_block(ins),
        ),
        NodeBehavior::Waveform(b) => post == pre && outs_post == outs_pre.update(
            0,
            waveform_block(b.waveform@),
        ),
        NodeBehavior::Sin(b) => {
            &&& post == NodeBehavior::Sin(SinNode {
                clock: sin_phase_at(b.clock, ins[0], BUFFER_SIZE as int),
            })
            &&& outs_post == outs_pre.update(0, sin_block(b.clock, ins[0]))
            &&& b.clock < SAMPLE_RATE_BITS && is_silent_block(ins[0]) ==> {
                &&& post == NodeBehavior::Sin(SinNode { clock: b.clock })
                &&& forall|m: int|
                    0 <= m < BUFFER_SIZE ==> outs_post[0][m] == sine_at_phase(b.clock)
            }
        },
        NodeBehavior::InterleavingOutput(_) => {
            &&& post matches NodeBehavior::InterleavingOutput(nb)
            &&& nb.capture@ == interleave_block(ins[0], ins[1])
            &&& outs_post == outs_pre
        },
    }
}

impl NodeBehavior {
    pub fn update(&mut self, inputs: &Vec<NodeIn>, outputs: &mut Vec<NodeOut>)
        requires
            old(self).wf(),
            inputs@.len() == old(self).spec_num_ins(),
            forall|i: int|
                0 <= i < inputs@.len() ==> (#[trigger] inputs@[i]).buffer@.len() == BUFFER_SIZE,
            old(outputs)@.len() == old(self).spec_num_outs(),
            forall|j: int|
                0 <= j < old(outputs)@.len() ==> (#[trigger] old(outputs)@[j]).buffer@.len()
                    == BUFFER_SIZE,
        ensures
            final(self).wf(),
            final(self).spec_num_ins() == old(self).spec_num_ins(),
            final(self).spec_num_outs() == old(self).spec_num_outs(),
            final(outputs)@.len() == old(outputs)@.len(),
            forall|j: int|
                0 <= j < final(outputs)@.len() ==> (#[trigger] final(outputs)@[j]).buffer@.len()
                    == BUFFER_SIZE,
            behavior_post(
                *old(self),
                *final(self),
                in_views(inputs@),
                out_views(old(outputs)@),
                out_views(final(outputs)@),
            ),
    {
        let ghost pre = *self;
        let ghost ins = in_views(inputs@);
        let ghost pre_outs = out_views(outputs@);
        match self {
            NodeBehavior::Sum(b) => {
                b.update(inputs, outputs);
                proof {
                    assert(out_views(outputs@) =~= pre_outs.update(0, sum_block(ins)));
                }
            },
            NodeBehavior::Product(b) => {
                b.update(inputs, outputs);
                proof {
                    assert(out_views(outputs@) =~= pre_outs.update(0, product_block(ins)));
                }
            },
            NodeBehavior::Waveform(b) => {
                b.update(inputs, outputs);
                proof {
                    assert(out_views(outputs@) =~= pre_outs.update(
                        0,
                        waveform_block(pre->Waveform_0.waveform@),
                    ));
                }
            },
            NodeBehavior::Sin(b) => {
                proof {
                    assert(ins[0] == inputs@[0].buffer@);
                }
                b.update(inputs, outputs);
                proof {
                    assert(out_views(outputs@) =~= pre_outs.update(
                        0,
                        sin_block(pre->Sin_0.clock, ins[0]),
                    ));
                }
            },
            NodeBehavior::InterleavingOutput(b) => {
                proof {
                    assert(ins[0] == inputs@[0].buffer@);
                    assert(ins[1] == inputs@[1].buffer@);
                }
                b.update(inputs, outputs);
                proof {
                    assert(out_views(outputs@) =~= pre_outs);
                }
            },
        }
    }
}

} // verus!
