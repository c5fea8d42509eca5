//! The node capability: the processing contract every graph entry implements,
//! the three concrete node behaviours (constant source, passthrough,
//! summation), and the transient per-block input values handed to them.

use vstd::prelude::*;

verus! {

/// One predecessor's cached value, paired with that predecessor's identifier.
/// Assembled fresh for each node visited each block and discarded right after
/// that node's processing operation runs.
pub struct Input {
    pub node_id: usize,
    pub data: i32,
}

impl View for Input {
    type V = (int, int);

    open spec fn view(&self) -> (int, int) {
        (self.node_id as int, self.data as int)
    }
}

impl Input {
    pub fn new(node_id: usize, data: i32) -> (r: Input)
        ensures
            r@ == (node_id as int, data as int),
    {
        Input { node_id, data }
    }

    pub fn data(&self) -> (r: i32)
        ensures
            r as int == self@.1,
    {
        self.data
    }
}

/// The scratch input mapping handed to a node's processing operation: one
/// entry per distinct direct non-self predecessor, pairing its identifier
/// with its cached value, ordered by each predecessor's first edge. Reused
/// (cleared, not reallocated) across nodes and across blocks.
pub struct Inputs {
    pub items: Vec<Input>,
}

impl View for Inputs {
    type V = Seq<(int, int)>;

    open spec fn view(&self) -> Seq<(int, int)> {
        self.items@.map_values(|inp: Input| inp@)
    }
}

impl Inputs {
    pub fn new() -> (r: Inputs)
        ensures
            r@ == Seq::<(int, int)>::empty(),
    {
        let r = Inputs { items: Vec::new() };
        proof {
            assert(r@ =~= Seq::<(int, int)>::empty());
        }
        r
    }

    pub fn clear(&mut self)
        ensures
            final(self)@ == Seq::<(int, int)>::empty(),
    {
        self.items.clear();
        proof {
            assert(self@ =~= Seq::<(int, int)>::empty());
        }
    }

    pub fn push(&mut self, inp: Input)
        ensures
            final(self)@ == old(self)@.push(inp@),
    {
        self.items.push(inp);
        proof {
            assert(self@ =~= old(self)@.push(inp@));
        }
    }

    pub fn len(&self) -> (n: usize)
        ensures
            n == self@.len(),
    {
        self.items.len()
    }

    pub fn get(&self, i: usize) -> (r: &Input)
        requires
            i < self@.len(),
        ensures
            r@ == self@[i as int],
    {
        &self.items[i]
    }

    /// Whether some entry already carries this identifier as its key.
    pub fn contains_id(&self, id: usize) -> (r: bool)
        ensures
            r == exists|u: int| 0 <= u < self@.len() && (#[trigger] self@[u]).0 == id as int,
    {
        let n = self.items.len();
        let mut found = false;
        let mut t: usize = 0;
        while t < n
            invariant
                t <= n,
                n == self@.len(),
                found == exists|u: int| 0 <= u < t as int && (#[trigger] self@[u]).0 == id as int,
            decreases n - t,
        {
            if self.items[t].node_id == id {
                found = true;
                proof {
                    assert(self@[t as int].0 == id as int);
                }
            }
            t = t + 1;
            proof {
                if !found {
                    assert forall|u: int| 0 <= u < t as int implies (#[trigger] self@[u]).0
                        != id as int by {
                        if u == t - 1 {
                            assert(self@[u].0 == self.items@[u].node_id as int);
                        }
                    }
                }
            }
        }
        found
    }
}

/// Wraps an unbounded integer into the `i32` range, the way two's-complement
/// addition of two in-range summands does.
pub open spec fn wrap_i32(v: int) -> int {
    if v > 0x7fff_ffff {
        v - 0x1_0000_0000
    } else if v < -0x8000_0000 {
        v + 0x1_0000_0000
    } else {
        v
    }
}

pub open spec fn wrap_add_spec(a: int, b: int) -> int {
    wrap_i32(a + b)
}

/// The wrapping sum of the values of an input sequence, folded left to right;
/// the sum over no inputs is 0.
pub open spec fn wrap_sum(ins: Seq<(int, int)>) -> int
    decreases ins.len(),
{
    if ins.len() == 0 {
        0
    } else {
        wrap_add_spec(wrap_sum(ins.drop_last()), ins.last().1)
    }
}

/// Two's-complement wrapping addition on `i32`, computed without overflow.
pub fn wrapping_add_i32(a: i32, b: i32) -> (r: i32)
    ensures
        r as int == wrap_add_spec(a as int, b as int),
{
    let s: i64 = a as i64 + b as i64;
    if s > 0x7fff_ffffi64 {
        (s - 0x1_0000_0000i64) as i32
    } else if s < -0x8000_0000i64 {
        (s + 0x1_0000_0000i64) as i32
    } else {
        s as i32
    }
}

/// The processing contract: given a read-only mapping from predecessor
/// identifier to that predecessor's last-produced value, compute and write
/// this node's output value. The effect is solely the write to `output`;
/// `out_spec` says exactly which value is written.
pub trait Node: Sized {
    /// The value this node produces, as a function of its inputs and of its
    /// previously cached output.
    spec fn out_spec(&self, inputs: Seq<(int, int)>, prev: int) -> int;

    fn process(&mut self, inputs: &Inputs, output: &mut i32)
        ensures
            *final(self) == *old(self),
            *final(output) as int == old(self).out_spec(inputs@, *old(output) as int),
    ;
}

/// A fixed-value source: always writes the value it was built with.
#[derive(Clone, Copy)]
pub struct ConstSig {
    pub value: i32,
}

impl ConstSig {
    pub open spec fn spec_value(&self) -> int {
        self.value as int
    }

    pub fn new(value: i32) -> (r: ConstSig)
        ensures
            r.spec_value() == value as int,
    {
        ConstSig { value }
    }
}

impl Node for ConstSig {
    open spec fn out_spec(&self, inputs: Seq<(int, int)>, prev: int) -> int {
        self.spec_value()
    }

    fn process(&mut self, inputs: &Inputs, output: &mut i32) {
        *output = self.value;
    }
}

/// A single-input passthrough: copies its first input's value; with no
/// predecessor it leaves the prior output unchanged.
#[derive(Clone, Copy)]
pub struct Pass;

impl Node for Pass {
    open spec fn out_spec(&self, inputs: Seq<(int, int)>, prev: int) -> int {
        if inputs.len() == 0 {
            prev
        } else {
            inputs[0].1
        }
    }

    fn process(&mut self, inputs: &Inputs, output: &mut i32) {
        if inputs.len() > 0 {
            *output = inputs.get(0).data();
        }
    }
}

/// An N-input summation: writes the wrapping sum of all input values. Invoked
/// with zero predecessors it writes 0, the defined identity of the sum.
#[derive(Clone, Copy)]
pub struct Sum2;

impl Node for Sum2 {
    open spec fn out_spec(&self, inputs: Seq<(int, int)>, prev: int) -> int {
        wrap_sum(inputs)
    }

    fn process(&mut self, inputs: &Inputs, output: &mut i32) {
        let n = inputs.len();
        let mut acc: i32 = 0;
        let mut i: usize = 0;
        while i < n
            invariant
                i <= n,
                n == inputs@.len(),
                acc as int == wrap_sum(inputs@.take(i as int)),
            decreases n - i,
        {
            acc = wrapping_add_i32(acc, inputs.get(i).data());
            i = i + 1;
            proof {
                assert(inputs@.take(i as int).drop_last() =~= inputs@.take(i as int - 1));
                assert(inputs@.take(i as int).last() == inputs@[i as int - 1]);
            }
        }
        proof {
            assert(inputs@.take(n as int) =~= inputs@);
        }
        *output = acc;
    }
}

/// The closed set of node behaviours a graph entry can hold. Each variant
/// implements the one processing operation; dispatch is by `match`.
#[derive(Clone, Copy)]
pub enum NodeKind {
    Const(ConstSig),
    Through(Pass),
    Sum(Sum2),
}

impl Node for NodeKind {
    open spec fn out_spec(&self, inputs: Seq<(int, int)>, prev: int) -> int {
        match *self {
            NodeKind::Const(c) => c.out_spec(inputs, prev),
            NodeKind::Through(p) => p.out_spec(inputs, prev),
            NodeKind::Sum(s) => s.out_spec(inputs, prev),
        }
    }

    fn process(&mut self, inputs: &Inputs, output: &mut i32) {
        match self {
            NodeKind::Const(c) => c.process(inputs, output),
            NodeKind::Through(p) => p.process(inputs, output),
            NodeKind::Sum(s) => s.process(inputs, output),
        }
    }
}

/// A graph entry's processing unit. The graph exclusively owns each node
/// instance; no shared ownership is needed anywhere in this design.
#[derive(Clone, Copy)]
pub struct BoxedNode(pub NodeKind);

impl BoxedNode {
    pub fn new(node: NodeKind) -> (r: BoxedNode)
        ensures
            r.0 == node,
    {
        BoxedNode(node)
    }
}

impl Node for BoxedNode {
    open spec fn out_spec(&self, inputs: Seq<(int, int)>, prev: int) -> int {
        self.0.out_spec(inputs, prev)
    }

    fn process(&mut self, inputs: &Inputs, output: &mut i32) {
        self.0.process(inputs, output)
    }
}

/// The value a node of kind `k` writes for the given inputs and previously
/// cached output.
pub open spec fn node_out(k: NodeKind, inputs: Seq<(int, int)>, prev: int) -> int {
    k.out_spec(inputs, prev)
}

/// Pairs one node implementation with its cached scalar output: its value as
/// of the most recently completed block.
#[derive(Clone, Copy)]
pub struct NodeData<T> {
    pub buffer: i32,
    pub node: T,
}

impl<T> NodeData<T> {
    pub fn new(node: T) -> (r: NodeData<T>)
        ensures
            r.buffer == 0,
            r.node == node,
    {
        NodeData { node, buffer: 0 }
    }
}

pub type AudioNodeData = NodeData<BoxedNode>;

} // verus!
