//! The buffer bookkeeping of a compiled schedule.
//!
//! Every buffer carries flags that say whether it holds silence or a
//! constant value. Before a node runs, its buffers are cleared, copied or
//! left alone according to those flags, and the node is told which of its
//! inputs and outputs are silent or constant; after it runs, the flags of
//! its outputs are updated from what it reports. The samples themselves
//! are moved by the caller, as each plan below says.
use crate::buffer_lists::{
    in_list_contents, in_list_get, in_list_len, in_list_new, in_list_push, out_list_contents, out_list_get,
    out_list_len, out_list_new, out_list_push, InBufferList, OutBufferList,
};
use crate::buffers::{BufferFlags, InBufferAssignment, OutBufferAssignment};
use crate::ids::NodeID;
use vstd::prelude::*;

verus! {

/// Whether channel `i` is set in a 64-channel mask.
pub open spec fn mask_bit(m: u64, i: int) -> bool {
    (m >> (i as u64)) & 1u64 == 1u64
}

proof fn lemma_mask_bits(m: u64, i: u64)
    by (bit_vector)
    requires
        i < 64,
    ensures
        forall|j: u64| #![trigger (m | (1u64 << i)) >> j] j < 64 ==> ((((m | (1u64 << i)) >> j) & 1u64 == 1u64) == (if j == i {
            true
        } else {
            (m >> j) & 1u64 == 1u64
        })),
        forall|j: u64| #![trigger (m & !(1u64 << i)) >> j] j < 64 ==> ((((m & !(1u64 << i)) >> j) & 1u64 == 1u64) == (if j == i {
            false
        } else {
            (m >> j) & 1u64 == 1u64
        })),
{
}

pub(crate) proof fn lemma_mask_zero()
    ensures
        forall|j: int| 0 <= j < 64 ==> !#[trigger] mask_bit(0u64, j),
{
    assert forall|j: int| 0 <= j < 64 implies !#[trigger] mask_bit(0u64, j) by {
        let j = j as u64;
        assert((0u64 >> j) & 1u64 != 1u64) by (bit_vector)
            requires
                j < 64,
        ;
    }
}

/// Whether channel `i` is set in a mask.
pub fn is_channel_set(mask: u64, i: usize) -> (r: bool)
    requires
        i < 64,
    ensures
        r == mask_bit(mask, i as int),
{
    proof {
        assert((i as int) as u64 == i as u64);
    }
    (mask >> (i as u64)) & 1u64 == 1u64
}

/// Sets or clears channel `i` of a mask.
pub fn set_channel(mask: u64, i: usize, value: bool) -> (r: u64)
    requires
        i < 64,
    ensures
        forall|j: int| 0 <= j < 64 ==> #[trigger] mask_bit(r, j) == (if j == i { value } else { mask_bit(mask, j) }),
{
    let bit: u64 = 1u64 << (i as u64);
    let r = if value {
        mask | bit
    } else {
        mask & !bit
    };
    proof {
        lemma_mask_bits(mask, i as u64);
        assert forall|j: int| 0 <= j < 64 implies #[trigger] mask_bit(r, j) == (if j == i { value } else { mask_bit(mask, j) }) by {
            let ju = j as u64;
            if value {
                assert((((mask | (1u64 << (i as u64))) >> ju) & 1u64 == 1u64) == (if ju == i as u64 {
                    true
                } else {
                    (mask >> ju) & 1u64 == 1u64
                }));
            } else {
                assert((((mask & !(1u64 << (i as u64))) >> ju) & 1u64 == 1u64) == (if ju == i as u64 {
                    false
                } else {
                    (mask >> ju) & 1u64 == 1u64
                }));
            }
        }
    }
    r
}

/// The flags of a buffer marked silent (or not) over `frames` frames.
pub open spec fn silent_flag(silent: bool, frames: u16) -> BufferFlags {
    BufferFlags { silent, constant: silent, frames }
}

/// What to do with an output buffer that takes over the contents of an
/// input buffer.
#[derive(Debug, Clone, Copy, PartialEq, Eq, Structural)]
pub enum PairAction {
    /// Leave the output buffer as it is.
    Keep,
    /// Fill the output buffer with zeros.
    Clear,
    /// The input holds one value repeated: fill the output with the input's
    /// first sample, unless the output was already constant with that same
    /// value and clearing is not forced.
    FillConstant { out_was_constant: bool },
    /// Copy the input into the output.
    Copy,
}

/// A buffer summed from several input buffers in front of an input port.
pub struct InsertedSum {
    pub input_buffers: InBufferList,
    pub output_buffer: OutBufferAssignment,
}

/// How to compute an inserted sum: start the output from zeros or from a
/// copy of the first input, then add the other inputs listed.
pub struct SumPlan {
    /// Fill the output with zeros (the first input is silent and the output
    /// is not known to be silent).
    pub zero_output: bool,
    /// Copy the first input into the output.
    pub copy_first: bool,
    /// The buffers, after the first, to add into the output.
    pub add_inputs: Vec<usize>,
}

impl InsertedSum {
    /// A sum into `output_buffer` with no inputs yet.
    pub fn new(output_buffer: OutBufferAssignment) -> (r: InsertedSum)
        ensures
            in_list_contents(r.input_buffers) == Seq::<InBufferAssignment>::empty(),
            r.output_buffer == output_buffer,
    {
        InsertedSum { input_buffers: in_list_new(), output_buffer }
    }

    /// Adds an input to the sum.
    pub fn add_input(&mut self, a: InBufferAssignment)
        ensures
            in_list_contents(final(self).input_buffers) == in_list_contents(old(self).input_buffers).push(a),
            final(self).output_buffer == old(self).output_buffer,
    {
        in_list_push(&mut self.input_buffers, a);
    }
}

/// The input buffers of `s`, read through the flags, whose flags are not
/// silent, as buffer indices.
pub open spec fn audible_inputs(ins: Seq<InBufferAssignment>, flags: Seq<BufferFlags>) -> Seq<usize> {
    ins.filter(|a: InBufferAssignment| !flags[a.buffer_index as int].silent).map_values(|a: InBufferAssignment| a.buffer_index)
}

/// Plans an inserted sum and marks its output silent exactly when all of
/// its inputs are.
pub fn sum_inputs(sum: &InsertedSum, flags: &mut Vec<BufferFlags>, frames: u16) -> (r: SumPlan)
    requires
        in_list_contents(sum.input_buffers).len() > 0,
        forall|i: int| 0 <= i < in_list_contents(sum.input_buffers).len() ==> (#[trigger] in_list_contents(sum.input_buffers)[i]).buffer_index
            < old(flags)@.len(),
        sum.output_buffer.buffer_index < old(flags)@.len(),
    ensures
        ({
            let ins = in_list_contents(sum.input_buffers);
            let f0 = old(flags)@;
            let first_silent = f0[ins[0].buffer_index as int].silent;
            let all_silent = forall|i: int| 0 <= i < ins.len() ==> #[trigger] f0[ins[i].buffer_index as int].silent;
            &&& r.zero_output == (first_silent && !f0[sum.output_buffer.buffer_index as int].silent)
            &&& r.copy_first == !first_silent
            &&& r.add_inputs@ == audible_inputs(ins.subrange(1, ins.len() as int), f0)
            &&& final(flags)@ == f0.update(sum.output_buffer.buffer_index as int, silent_flag(all_silent, frames))
        }),
{
    let ghost ins = in_list_contents(sum.input_buffers);
    let ghost f0 = flags@;
    let n = in_list_len(&sum.input_buffers);
    let out_index = sum.output_buffer.buffer_index;
    let first = in_list_get(&sum.input_buffers, 0);
    let first_silent = flags[first.buffer_index].silent;
    let zero_output = first_silent && !flags[out_index].silent;
    let mut all_silent = first_silent;
    let mut add_inputs: Vec<usize> = Vec::new();
    let mut i: usize = 1;
    let ghost pr = |a: InBufferAssignment| !f0[a.buffer_index as int].silent;
    proof {
        assert(ins.subrange(1, 1) =~= Seq::<InBufferAssignment>::empty());
        reveal(Seq::filter);
        assert(audible_inputs(ins.subrange(1, 1), f0) =~= Seq::<usize>::empty());
    }
    while i < n
        invariant
            1 <= i <= n,
            n == ins.len(),
            ins == in_list_contents(sum.input_buffers),
            flags@ == f0,
            forall|j: int| 0 <= j < ins.len() ==> (#[trigger] ins[j]).buffer_index < f0.len(),
            pr == (|a: InBufferAssignment| !f0[a.buffer_index as int].silent),
            all_silent == forall|j: int| 0 <= j < i ==> #[trigger] f0[ins[j].buffer_index as int].silent,
            add_inputs@ == audible_inputs(ins.subrange(1, i as int), f0),
        decreases n - i,
    {
        let b = in_list_get(&sum.input_buffers, i);
        proof {
            assert(ins.subrange(1, i + 1) =~= ins.subrange(1, i as int).push(ins[i as int]));
            ins.subrange(1, i as int).lemma_filter_push(ins[i as int], pr);
        }
        if !flags[b.buffer_index].silent {
            all_silent = false;
            add_inputs.push(b.buffer_index);
            proof {
                assert(add_inputs@ =~= audible_inputs(ins.subrange(1, i + 1), f0));
            }
        } else {
            proof {
                assert(add_inputs@ =~= audible_inputs(ins.subrange(1, i + 1), f0));
            }
        }
        i = i + 1;
    }
    let flag = BufferFlags { silent: all_silent, constant: all_silent, frames };
    flags.set(out_index, flag);
    SumPlan { zero_output, copy_first: !first_silent, add_inputs }
}

impl InsertedSum {
    /// The number of buffers summed.
    pub fn num_inputs(&self) -> (r: usize)
        ensures
            r == in_list_contents(self.input_buffers).len(),
    {
        in_list_len(&self.input_buffers)
    }

    /// The `i`-th buffer summed.
    pub fn input(&self, i: usize) -> (r: InBufferAssignment)
        requires
            i < in_list_contents(self.input_buffers).len(),
        ensures
            r == in_list_contents(self.input_buffers)[i as int],
    {
        in_list_get(&self.input_buffers, i)
    }
}

/// A node in the schedule with the buffers assigned to its ports.
pub struct ScheduledNode {
    /// The node's ID.
    pub id: NodeID,
    /// The buffers assigned to the input ports.
    pub input_buffers: InBufferList,
    /// The buffers assigned to the output ports.
    pub output_buffers: OutBufferList,
    /// Which input ports are connected.
    pub in_connected_mask: u64,
    /// Which output ports are connected.
    pub out_connected_mask: u64,
    /// The node processes its buffers in place (input `i` and output `i`
    /// the same buffer).
    pub node_wants_in_place_buffers: bool,
    /// The allocator gave the node the same buffers for inputs and outputs.
    pub is_in_place_buffers: bool,
    /// The sums to compute before the node runs.
    pub sum_inputs: Vec<InsertedSum>,
}

/// Whether a node's buffers meet what the buffer planning asks of a
/// schedule (see [`buffers_valid`]): at most 64 per side, each among the
/// `num_flags` buffers, distinct on each side, and shared between an input
/// and an output only port by port, where the node processes in place.
pub fn node_buffers_valid(node: &ScheduledNode, num_flags: usize) -> (r: bool)
    ensures
        r == buffers_valid(*node, num_flags as int),
{
    let ghost ins = node_ins(*node);
    let ghost outs = node_outs(*node);
    let ni = node.num_inputs();
    let no = node.num_outputs();
    if ni > 64 || no > 64 {
        return false;
    }
    let mut a: usize = 0;
    while a < ni
        invariant
            a <= ni,
            ni == ins.len(),
            ins == node_ins(*node),
            forall|k: int| 0 <= k < a ==> (#[trigger] ins[k]).buffer_index < num_flags,
        decreases ni - a,
    {
        if node.input(a).buffer_index >= num_flags {
            return false;
        }
        a += 1;
    }
    let mut a: usize = 0;
    while a < no
        invariant
            a <= no,
            no == outs.len(),
            outs == node_outs(*node),
            forall|k: int| 0 <= k < a ==> (#[trigger] outs[k]).buffer_index < num_flags,
        decreases no - a,
    {
        if node.output(a).buffer_index >= num_flags {
            return false;
        }
        a += 1;
    }
    let mut a: usize = 0;
    while a < ni
        invariant
            a <= ni,
            ni == ins.len(),
            ins == node_ins(*node),
            forall|x: int, y: int| 0 <= x < y < ni && x < a ==> (#[trigger] ins[x]).buffer_index != (#[trigger] ins[y]).buffer_index,
        decreases ni - a,
    {
        let mut b: usize = a + 1;
        while b < ni
            invariant
                a < ni,
                a < b <= ni,
                ni == ins.len(),
                ins == node_ins(*node),
                forall|y: int| a < y < b ==> ins[a as int].buffer_index != (#[trigger] ins[y]).buffer_index,
            decreases ni - b,
        {
            if node.input(a).buffer_index == node.input(b).buffer_index {
                return false;
            }
            b += 1;
        }
        a += 1;
    }
    let mut a: usize = 0;
    while a < no
        invariant
            a <= no,
            no == outs.len(),
            outs == node_outs(*node),
            forall|x: int, y: int| 0 <= x < y < no && x < a ==> (#[trigger] outs[x]).buffer_index != (#[trigger] outs[y]).buffer_index,
        decreases no - a,
    {
        let mut b: usize = a + 1;
        while b < no
            invariant
                a < no,
                a < b <= no,
                no == outs.len(),
                outs == node_outs(*node),
                forall|y: int| a < y < b ==> outs[a as int].buffer_index != (#[trigger] outs[y]).buffer_index,
            decreases no - b,
        {
            if node.output(a).buffer_index == node.output(b).buffer_index {
                return false;
            }
            b += 1;
        }
        a += 1;
    }
    let in_place = node.node_wants_in_place_buffers && node.is_in_place_buffers;
    let mut a: usize = 0;
    while a < ni
        invariant
            a <= ni,
            ni == ins.len(),
            no == outs.len(),
            ins == node_ins(*node),
            outs == node_outs(*node),
            in_place == (node.node_wants_in_place_buffers && node.is_in_place_buffers),
            forall|x: int, y: int|
                0 <= x < a && 0 <= y < no && (#[trigger] ins[x]).buffer_index == (#[trigger] outs[y]).buffer_index ==> x == y
                    && in_place,
        decreases ni - a,
    {
        let mut b: usize = 0;
        while b < no
            invariant
                a < ni,
                b <= no,
                ni == ins.len(),
                no == outs.len(),
                ins == node_ins(*node),
                outs == node_outs(*node),
                in_place == (node.node_wants_in_place_buffers && node.is_in_place_buffers),
                forall|y: int| 0 <= y < b && ins[a as int].buffer_index == (#[trigger] outs[y]).buffer_index ==> a == y && in_place,
            decreases no - b,
        {
            if node.input(a).buffer_index == node.output(b).buffer_index && !(a == b && in_place) {
                return false;
            }
            b += 1;
        }
        a += 1;
    }
    true
}

impl ScheduledNode {
    /// A node with no buffers yet.
    pub fn new(id: NodeID, node_wants_in_place_buffers: bool) -> (r: ScheduledNode)
        ensures
            r.id == id,
            in_list_contents(r.input_buffers) == Seq::<InBufferAssignment>::empty(),
            out_list_contents(r.output_buffers) == Seq::<OutBufferAssignment>::empty(),
            r.in_connected_mask == 0,
            r.out_connected_mask == 0,
            r.node_wants_in_place_buffers == node_wants_in_place_buffers,
            !r.is_in_place_buffers,
            r.sum_inputs@.len() == 0,
    {
        ScheduledNode {
            id,
            input_buffers: in_list_new(),
            output_buffers: out_list_new(),
            in_connected_mask: 0,
            out_connected_mask: 0,
            node_wants_in_place_buffers,
            is_in_place_buffers: false,
            sum_inputs: Vec::new(),
        }
    }

    /// Assigns a buffer to the next input port.
    pub fn add_input_buffer(&mut self, a: InBufferAssignment)
        ensures
            in_list_contents(final(self).input_buffers) == in_list_contents(old(self).input_buffers).push(a),
            out_list_contents(final(self).output_buffers) == out_list_contents(old(self).output_buffers),
            final(self).node_wants_in_place_buffers == old(self).node_wants_in_place_buffers,
            final(self).is_in_place_buffers == old(self).is_in_place_buffers,
            final(self).id == old(self).id,
    {
        in_list_push(&mut self.input_buffers, a);
    }

    /// Assigns a buffer to the next output port.
    pub fn add_output_buffer(&mut self, a: OutBufferAssignment)
        ensures
            out_list_contents(final(self).output_buffers) == out_list_contents(old(self).output_buffers).push(a),
            in_list_contents(final(self).input_buffers) == in_list_contents(old(self).input_buffers),
            final(self).node_wants_in_place_buffers == old(self).node_wants_in_place_buffers,
            final(self).is_in_place_buffers == old(self).is_in_place_buffers,
            final(self).id == old(self).id,
    {
        out_list_push(&mut self.output_buffers, a);
    }
}

pub open spec fn node_ins(n: ScheduledNode) -> Seq<InBufferAssignment> {
    in_list_contents(n.input_buffers)
}

pub open spec fn node_outs(n: ScheduledNode) -> Seq<OutBufferAssignment> {
    out_list_contents(n.output_buffers)
}

impl ScheduledNode {
    /// The number of input ports.
    pub fn num_inputs(&self) -> (r: usize)
        ensures
            r == node_ins(*self).len(),
    {
        in_list_len(&self.input_buffers)
    }

    /// The buffer assigned to input port `i`.
    pub fn input(&self, i: usize) -> (r: InBufferAssignment)
        requires
            i < node_ins(*self).len(),
        ensures
            r == node_ins(*self)[i as int],
    {
        in_list_get(&self.input_buffers, i)
    }

    /// The number of output ports.
    pub fn num_outputs(&self) -> (r: usize)
        ensures
            r == node_outs(*self).len(),
    {
        out_list_len(&self.output_buffers)
    }

    /// The buffer assigned to output port `j`.
    pub fn output(&self, j: usize) -> (r: OutBufferAssignment)
        requires
            j < node_outs(*self).len(),
        ensures
            r == node_outs(*self)[j as int],
    {
        out_list_get(&self.output_buffers, j)
    }
}

/// The node wants in-place buffers but was given separate ones, so each
/// input is first copied into the output of the same port.
pub open spec fn copies_in_place(n: ScheduledNode) -> bool {
    n.node_wants_in_place_buffers && !n.is_in_place_buffers
}

/// The number of leading ports whose input is copied into the output.
pub open spec fn in_place_copies(n: ScheduledNode) -> int {
    if copies_in_place(n) {
        if node_ins(n).len() < node_outs(n).len() {
            node_ins(n).len() as int
        } else {
            node_outs(n).len() as int
        }
    } else {
        0
    }
}

/// Whether input `i` is handed to the node as an input (an in-place node
/// sees the inputs that have an output of the same port through that
/// output).
pub open spec fn input_passed(n: ScheduledNode, i: int) -> bool {
    !n.node_wants_in_place_buffers || i >= node_outs(n).len()
}

/// The buffer assignments of a node are what the allocator guarantees: at
/// most 64 ports each way, indices in range, no buffer used twice on one
/// side, and an input buffer used as an output only for the same port of
/// a node given in-place buffers.
pub open spec fn buffers_valid(n: ScheduledNode, num_flags: int) -> bool {
    let ins = node_ins(n);
    let outs = node_outs(n);
    &&& ins.len() <= 64
    &&& outs.len() <= 64
    &&& forall|i: int| 0 <= i < ins.len() ==> (#[trigger] ins[i]).buffer_index < num_flags
    &&& forall|j: int| 0 <= j < outs.len() ==> (#[trigger] outs[j]).buffer_index < num_flags
    &&& forall|i1: int, i2: int| 0 <= i1 < i2 < ins.len() ==> (#[trigger] ins[i1]).buffer_index != (#[trigger] ins[i2]).buffer_index
    &&& forall|j1: int, j2: int| 0 <= j1 < j2 < outs.len() ==> (#[trigger] outs[j1]).buffer_index != (#[trigger] outs[j2]).buffer_index
    &&& forall|i: int, j: int|
        0 <= i < ins.len() && 0 <= j < outs.len() && (#[trigger] ins[i]).buffer_index == (#[trigger] outs[j]).buffer_index ==> i == j
            && n.node_wants_in_place_buffers && n.is_in_place_buffers
}

/// What copying input `a` into an output does.
pub open spec fn pair_action(a: InBufferAssignment, fin: BufferFlags, fout: BufferFlags, force: bool) -> PairAction {
    if a.should_clear {
        if !fout.silent || force {
            PairAction::Clear
        } else {
            PairAction::Keep
        }
    } else if fin.constant {
        PairAction::FillConstant { out_was_constant: fout.constant }
    } else {
        PairAction::Copy
    }
}

/// The output's flags after copying input `a` into it.
pub open spec fn pair_flag(a: InBufferAssignment, fin: BufferFlags, fout: BufferFlags, force: bool, frames: u16) -> BufferFlags {
    if a.should_clear {
        if !fout.silent || force {
            silent_flag(true, frames)
        } else {
            fout
        }
    } else {
        fin
    }
}

/// What is done to a node's buffers before it runs.
pub struct NodeBufferPlan {
    /// For each leading port copied in place, what happens to its output.
    pub pair_actions: Vec<PairAction>,
    /// For each input, whether its buffer is filled with zeros.
    pub input_clears: Vec<bool>,
    /// The first input handed to the node as an input; it gets the inputs
    /// from there on.
    pub first_passed_input: usize,
    /// For each output, whether its buffer is filled with zeros.
    pub output_clears: Vec<bool>,
    /// Which inputs handed to the node are silent, from `first_passed_input`
    /// counted from the first port not copied in place.
    pub in_silence_mask: u64,
    /// Which inputs handed to the node are constant, counted the same way.
    pub in_constant_mask: u64,
    /// Which outputs are silent.
    pub out_silence_mask: u64,
    /// Which outputs are constant.
    pub out_constant_mask: u64,
}

/// Prepares a node's buffers: copies inputs into the outputs of the same
/// ports for an in-place node given separate buffers, clears inputs no
/// edge feeds (unless they are already silent and clearing is not
/// forced), clears outputs when clearing is forced (except outputs that
/// are also inputs), and reports which of the node's buffers are silent or
/// constant.
#[verifier::rlimit(60)]
#[verifier::spinoff_prover]
pub fn prepare_node_buffers(node: &ScheduledNode, flags: &mut Vec<BufferFlags>, frames: u16, force_clear_buffers: bool) -> (r: NodeBufferPlan)
    requires
        buffers_valid(*node, old(flags)@.len() as int),
    ensures
        ({
            let ins = node_ins(*node);
            let outs = node_outs(*node);
            let f0 = old(flags)@;
            let f = final(flags)@;
            let skip = in_place_copies(*node);
            let force = force_clear_buffers;
            &&& f.len() == f0.len()
            &&& r.pair_actions@.len() == skip
            &&& forall|p: int| 0 <= p < skip ==> #[trigger] r.pair_actions@[p] == pair_action(
                ins[p],
                f0[ins[p].buffer_index as int],
                f0[outs[p].buffer_index as int],
                force,
            )
            &&& forall|p: int| 0 <= p < skip ==> f[(#[trigger] outs[p]).buffer_index as int] == pair_flag(
                ins[p],
                f0[ins[p].buffer_index as int],
                f0[outs[p].buffer_index as int],
                force,
                frames,
            )
            &&& r.input_clears@.len() == ins.len()
            &&& forall|i: int| 0 <= i < ins.len() ==> #[trigger] r.input_clears@[i] == (i >= skip && ins[i].should_clear && (
                !f0[ins[i].buffer_index as int].silent || force))
            &&& forall|i: int| 0 <= i < ins.len() ==> f[(#[trigger] ins[i]).buffer_index as int] == (if r.input_clears@[i] {
                silent_flag(true, frames)
            } else {
                f0[ins[i].buffer_index as int]
            })
            &&& r.output_clears@.len() == outs.len()
            &&& forall|j: int| 0 <= j < outs.len() ==> #[trigger] r.output_clears@[j] == (force && !(
            node.node_wants_in_place_buffers && j < ins.len()))
            &&& forall|j: int|
                skip <= j < outs.len() && !(j < ins.len() && ins[j].buffer_index == outs[j].buffer_index) ==> f[(
                #[trigger] outs[j]).buffer_index as int] == (if r.output_clears@[j] {
                    silent_flag(true, frames)
                } else {
                    f0[outs[j].buffer_index as int]
                })
            &&& forall|b: int|
                0 <= b < f0.len() && (forall|i: int| 0 <= i < ins.len() ==> (#[trigger] ins[i]).buffer_index != b) && (forall|j: int|
                    0 <= j < outs.len() ==> (#[trigger] outs[j]).buffer_index != b) ==> #[trigger] f[b] == f0[b]
            &&& r.first_passed_input == (if node.node_wants_in_place_buffers && outs.len() > skip {
                outs.len() as int
            } else {
                skip
            })
            &&& forall|j: int| 0 <= j < 64 ==> #[trigger] mask_bit(r.in_silence_mask, j) == (skip + j < ins.len() && input_passed(
                *node,
                skip + j,
            ) && f[ins[skip + j].buffer_index as int].silent)
            &&& forall|j: int| 0 <= j < 64 ==> #[trigger] mask_bit(r.in_constant_mask, j) == (skip + j < ins.len() && input_passed(
                *node,
                skip + j,
            ) && f[ins[skip + j].buffer_index as int].constant)
            &&& forall|j: int| 0 <= j < 64 ==> #[trigger] mask_bit(r.out_silence_mask, j) == (j < outs.len()
                && f[outs[j].buffer_index as int].silent)
            &&& forall|j: int| 0 <= j < 64 ==> #[trigger] mask_bit(r.out_constant_mask, j) == (j < outs.len()
                && f[outs[j].buffer_index as int].constant)
        }),
{
    let ghost ins = node_ins(*node);
    let ghost outs = node_outs(*node);
    let ghost f0 = flags@;
    let ghost skip = in_place_copies(*node);
    let force = force_clear_buffers;
    let nin = in_list_len(&node.input_buffers);
    let nout = out_list_len(&node.output_buffers);
    let wants = node.node_wants_in_place_buffers;
    let copy_in_place = wants && !node.is_in_place_buffers;
    let skip_inputs: usize = if copy_in_place {
        if nin < nout {
            nin
        } else {
            nout
        }
    } else {
        0
    };
    // Copy the inputs of the leading ports into their outputs.
    let mut pair_actions: Vec<PairAction> = Vec::new();
    let mut p: usize = 0;
    while p < skip_inputs
        invariant
            p <= skip_inputs,
            skip_inputs == skip,
            nin == ins.len(),
            nout == outs.len(),
            ins == node_ins(*node),
            outs == node_outs(*node),
            buffers_valid(*node, f0.len() as int),
            skip <= nin,
            skip <= nout,
            skip > 0 ==> copies_in_place(*node),
            flags@.len() == f0.len(),
            pair_actions@.len() == p,
            forall|q: int| 0 <= q < p ==> #[trigger] pair_actions@[q] == pair_action(
                ins[q],
                f0[ins[q].buffer_index as int],
                f0[outs[q].buffer_index as int],
                force,
            ),
            forall|q: int| 0 <= q < p ==> flags@[(#[trigger] outs[q]).buffer_index as int] == pair_flag(
                ins[q],
                f0[ins[q].buffer_index as int],
                f0[outs[q].buffer_index as int],
                force,
                frames,
            ),
            forall|b: int| 0 <= b < f0.len() && (forall|q: int| 0 <= q < p ==> (#[trigger] outs[q]).buffer_index != b) ==> #[trigger] flags@[b] == f0[b],
        decreases skip_inputs - p,
    {
        let a = in_list_get(&node.input_buffers, p);
        let o = out_list_get(&node.output_buffers, p);
        proof {
            assert(ins[p as int] == a);
            assert(outs[p as int] == o);
            assert forall|q: int| 0 <= q < p implies (#[trigger] outs[q]).buffer_index != a.buffer_index by {
                assert(ins[p as int].buffer_index != outs[q].buffer_index);
            }
            assert forall|q: int| 0 <= q < p implies (#[trigger] outs[q]).buffer_index != o.buffer_index by {
                assert(outs[q].buffer_index != outs[p as int].buffer_index);
            }
        }
        let in_flag = flags[a.buffer_index];
        let out_flag = flags[o.buffer_index];
        let action = if a.should_clear {
            if !out_flag.silent || force {
                PairAction::Clear
            } else {
                PairAction::Keep
            }
        } else if in_flag.constant {
            PairAction::FillConstant { out_was_constant: out_flag.constant }
        } else {
            PairAction::Copy
        };
        let new_flag = if a.should_clear {
            if !out_flag.silent || force {
                BufferFlags { silent: true, constant: true, frames }
            } else {
                out_flag
            }
        } else {
            in_flag
        };
        flags.set(o.buffer_index, new_flag);
        pair_actions.push(action);
        p = p + 1;
    }
    let ghost f1 = flags@;
    // Clear the inputs no edge feeds and note which are silent or constant.
    let mut input_clears: Vec<bool> = Vec::new();
    let mut k: usize = 0;
    while k < skip_inputs
        invariant
            k <= skip_inputs,
            input_clears@.len() == k,
            forall|i: int| 0 <= i < k ==> !#[trigger] input_clears@[i],
        decreases skip_inputs - k,
    {
        input_clears.push(false);
        k = k + 1;
    }
    let mut in_silence_mask: u64 = 0;
    let mut in_constant_mask: u64 = 0;
    proof {
        lemma_mask_zero();
    }
    let mut i: usize = skip_inputs;
    while i < nin
        invariant
            skip_inputs <= i <= nin,
            skip_inputs == skip,
            nin == ins.len(),
            nout == outs.len(),
            wants == node.node_wants_in_place_buffers,
            ins == node_ins(*node),
            outs == node_outs(*node),
            buffers_valid(*node, f0.len() as int),
            skip <= nin,
            skip <= nout,
            skip > 0 ==> copies_in_place(*node),
            flags@.len() == f0.len(),
            input_clears@.len() == i,
            forall|q: int| 0 <= q < skip ==> !#[trigger] input_clears@[q],
            forall|q: int| skip <= q < i ==> #[trigger] input_clears@[q] == (ins[q].should_clear && (
                !f0[ins[q].buffer_index as int].silent || force)),
            forall|q: int| skip <= q < i ==> flags@[(#[trigger] ins[q]).buffer_index as int] == (if input_clears@[q] {
                silent_flag(true, frames)
            } else {
                f0[ins[q].buffer_index as int]
            }),
            forall|q: int| 0 <= q < skip ==> flags@[(#[trigger] outs[q]).buffer_index as int] == f1[outs[q].buffer_index as int],
            forall|b: int|
                0 <= b < f0.len() && (forall|q: int| skip <= q < i ==> (#[trigger] ins[q]).buffer_index != b) ==> #[trigger] flags@[b] == f1[b],
            forall|b: int| 0 <= b < f0.len() && (forall|q: int| 0 <= q < skip ==> (#[trigger] outs[q]).buffer_index != b) ==> #[trigger] f1[b] == f0[b],
            forall|j: int| 0 <= j < 64 ==> #[trigger] mask_bit(in_silence_mask, j) == (skip + j < i && input_passed(*node, skip + j)
                && flags@[ins[skip + j].buffer_index as int].silent),
            forall|j: int| 0 <= j < 64 ==> #[trigger] mask_bit(in_constant_mask, j) == (skip + j < i && input_passed(*node, skip + j)
                && flags@[ins[skip + j].buffer_index as int].constant),
        decreases nin - i,
    {
        let b = in_list_get(&node.input_buffers, i);
        proof {
            assert(ins[i as int] == b);
            assert forall|q: int| skip <= q < i implies (#[trigger] ins[q]).buffer_index != b.buffer_index by {
                assert(ins[q].buffer_index != ins[i as int].buffer_index);
            }
            assert forall|q: int| 0 <= q < skip implies (#[trigger] outs[q]).buffer_index != b.buffer_index by {
                assert(ins[i as int].buffer_index != outs[q].buffer_index);
            }
        }
        let flag = flags[b.buffer_index];
        let clear = b.should_clear && (!flag.silent || force);
        let new_flag = if clear {
            BufferFlags { silent: true, constant: true, frames }
        } else {
            flag
        };
        flags.set(b.buffer_index, new_flag);
        input_clears.push(clear);
        if !wants || i >= nout {
            let ghost ms = in_silence_mask;
            let ghost mc = in_constant_mask;
            in_silence_mask = set_channel(in_silence_mask, i - skip_inputs, new_flag.silent);
            in_constant_mask = set_channel(in_constant_mask, i - skip_inputs, new_flag.constant);
        }
        proof {
            assert forall|q: int| skip <= q < i implies flags@[(#[trigger] ins[q]).buffer_index as int] == (if input_clears@[q] {
                silent_flag(true, frames)
            } else {
                f0[ins[q].buffer_index as int]
            }) by {
                assert(ins[q].buffer_index != ins[i as int].buffer_index);
            }
        }
        i = i + 1;
    }
    let ghost f2 = flags@;
    // Clear the outputs when clearing is forced, and note which outputs are
    // silent or constant.
    let mut output_clears: Vec<bool> = Vec::new();
    let mut out_silence_mask: u64 = 0;
    let mut out_constant_mask: u64 = 0;
    let mut j: usize = 0;
    while j < nout
        invariant
            j <= nout,
            skip_inputs == skip,
            nin == ins.len(),
            nout == outs.len(),
            wants == node.node_wants_in_place_buffers,
            ins == node_ins(*node),
            outs == node_outs(*node),
            buffers_valid(*node, f0.len() as int),
            flags@.len() == f0.len(),
            output_clears@.len() == j,
            forall|q: int| 0 <= q < j ==> #[trigger] output_clears@[q] == (force && !(wants && q < nin)),
            forall|q: int| 0 <= q < j ==> flags@[(#[trigger] outs[q]).buffer_index as int] == (if output_clears@[q] {
                silent_flag(true, frames)
            } else {
                f2[outs[q].buffer_index as int]
            }),
            forall|b: int|
                0 <= b < f0.len() && (forall|q: int| 0 <= q < j ==> (#[trigger] outs[q]).buffer_index != b) ==> #[trigger] flags@[b] == f2[b],
            forall|q: int| 0 <= q < j ==> (#[trigger] output_clears@[q]) ==> !(q < nin && ins[q].buffer_index == outs[q].buffer_index),
            forall|jj: int| 0 <= jj < 64 ==> #[trigger] mask_bit(out_silence_mask, jj) == (jj < j && flags@[outs[jj].buffer_index as int].silent),
            forall|jj: int| 0 <= jj < 64 ==> #[trigger] mask_bit(out_constant_mask, jj) == (jj < j && flags@[outs[jj].buffer_index as int].constant),
        decreases nout - j,
    {
        let o = out_list_get(&node.output_buffers, j);
        proof {
            assert(outs[j as int] == o);
            assert forall|q: int| 0 <= q < j implies (#[trigger] outs[q]).buffer_index != o.buffer_index by {
                assert(outs[q].buffer_index != outs[j as int].buffer_index);
            }
            if force && !(wants && j < nin) && j < nin {
                assert(ins[j as int].buffer_index != outs[j as int].buffer_index);
            }
        }
        let clear_buffer = if wants && j < nin {
            false
        } else {
            force
        };
        if clear_buffer {
            flags.set(o.buffer_index, BufferFlags { silent: true, constant: true, frames });
        }
        let flag = flags[o.buffer_index];
        output_clears.push(clear_buffer);
        out_silence_mask = set_channel(out_silence_mask, j, flag.silent);
        out_constant_mask = set_channel(out_constant_mask, j, flag.constant);
        j = j + 1;
    }
    proof {
        let f = flags@;
        assert forall|q: int| 0 <= q < skip implies f[(#[trigger] outs[q]).buffer_index as int] == pair_flag(
            ins[q],
            f0[ins[q].buffer_index as int],
            f0[outs[q].buffer_index as int],
            force,
            frames,
        ) by {
            assert(f2[outs[q].buffer_index as int] == f1[outs[q].buffer_index as int]);
        }
        assert forall|q: int| 0 <= q < ins.len() implies f[(#[trigger] ins[q]).buffer_index as int] == (if input_clears@[q] {
            silent_flag(true, frames)
        } else {
            f0[ins[q].buffer_index as int]
        }) by {
            let bi = ins[q].buffer_index as int;
            if exists|jj: int| 0 <= jj < nout && outs[jj].buffer_index == bi {
                let jj = choose|jj: int| 0 <= jj < nout && outs[jj].buffer_index == bi;
                assert(jj == q);
                assert(!output_clears@[jj]);
            } else {
                assert forall|jj: int| 0 <= jj < nout implies (#[trigger] outs[jj]).buffer_index != bi by {}
            }
            if q < skip {
                assert forall|qq: int| 0 <= qq < skip implies (#[trigger] outs[qq]).buffer_index != bi by {
                    assert(ins[q].buffer_index != outs[qq].buffer_index);
                }
                assert(f1[bi] == f0[bi]);
                assert forall|qq: int| skip <= qq < nin implies (#[trigger] ins[qq]).buffer_index != bi by {
                    assert(ins[qq].buffer_index != ins[q].buffer_index);
                }
            }
        }
    }
    NodeBufferPlan {
        pair_actions,
        input_clears,
        first_passed_input: if wants && nout > skip_inputs {
            nout
        } else {
            skip_inputs
        },
        output_clears,
        in_silence_mask,
        in_constant_mask,
        out_silence_mask,
        out_constant_mask,
    }
}

/// What a node reports after processing.
#[derive(Debug, Clone, Copy, PartialEq, Eq, Structural)]
pub enum ProcessStatus {
    /// All outputs are to be cleared.
    ClearAllOutputs,
    /// The node is bypassed: inputs pass through to the outputs.
    Bypass,
    /// The node wrote its outputs.
    OutputsModified,
    /// The node wrote its outputs; the ones in the mask are silent.
    OutputsModifiedWithSilenceMask(u64),
    /// The node wrote its outputs; the ones in the mask hold one value
    /// repeated.
    OutputsModifiedWithConstantMask(u64),
}

/// What is done to a node's outputs after it ran.
pub struct StatusPlan {
    /// For a bypassed node that does not work in place: for each leading
    /// port, how its input passes to its output.
    pub pair_actions: Vec<PairAction>,
    /// For each output, whether its buffer is filled with zeros.
    pub output_clears: Vec<bool>,
}

/// The flags of output `j` after the node reported `status`, given its
/// flags before (`fout`), the flags of input `j` (`fin`, for a bypassed
/// node) and whether the output's first sample is zero (for a constant
/// output).
pub open spec fn status_flag(
    n: ScheduledNode,
    status: ProcessStatus,
    j: int,
    fin: BufferFlags,
    fout: BufferFlags,
    force: bool,
    frames: u16,
    first_is_zero: bool,
) -> BufferFlags {
    match status {
        ProcessStatus::ClearAllOutputs => if !fout.silent || force {
            silent_flag(true, frames)
        } else {
            fout
        },
        ProcessStatus::Bypass => if j < node_ins(n).len() {
            if n.node_wants_in_place_buffers {
                fout
            } else {
                fin
            }
        } else if !fout.silent || force {
            silent_flag(true, frames)
        } else {
            fout
        },
        ProcessStatus::OutputsModified => silent_flag(false, frames),
        ProcessStatus::OutputsModifiedWithSilenceMask(m) => silent_flag(mask_bit(m, j), frames),
        ProcessStatus::OutputsModifiedWithConstantMask(m) => if mask_bit(m, j) {
            BufferFlags { silent: first_is_zero, constant: true, frames }
        } else {
            silent_flag(false, frames)
        },
    }
}

/// Whether output `j` is filled with zeros after the node reported
/// `status`.
pub open spec fn status_clears(n: ScheduledNode, status: ProcessStatus, j: int, fout: BufferFlags, force: bool) -> bool {
    match status {
        ProcessStatus::ClearAllOutputs => !fout.silent || force,
        ProcessStatus::Bypass => j >= node_ins(n).len() && (!fout.silent || force),
        _ => false,
    }
}

/// Updates the flags of a node's outputs from the status it reported: a
/// node that asks for its outputs to be cleared gets them cleared (unless
/// already silent and clearing is not forced); a bypassed node passes each
/// input to the output of the same port and has its other outputs
/// cleared; a node that wrote its outputs has them marked as it reports.
/// `first_sample_is_zero` tells, for each output, whether its first sample
/// is zero; it is read only for outputs reported constant.
#[verifier::rlimit(40)]
pub fn finish_node_buffers(
    node: &ScheduledNode,
    flags: &mut Vec<BufferFlags>,
    frames: u16,
    force_clear_buffers: bool,
    status: ProcessStatus,
    first_sample_is_zero: &Vec<bool>,
) -> (r: StatusPlan)
    requires
        buffers_valid(*node, old(flags)@.len() as int),
        status is OutputsModifiedWithConstantMask ==> first_sample_is_zero@.len() >= node_outs(*node).len(),
    ensures
        ({
            let ins = node_ins(*node);
            let outs = node_outs(*node);
            let f0 = old(flags)@;
            let f = final(flags)@;
            let force = force_clear_buffers;
            let npairs = if status == ProcessStatus::Bypass && !node.node_wants_in_place_buffers {
                if ins.len() < outs.len() {
                    ins.len() as int
                } else {
                    outs.len() as int
                }
            } else {
                0
            };
            &&& f.len() == f0.len()
            &&& r.pair_actions@.len() == npairs
            &&& forall|p: int| 0 <= p < npairs ==> #[trigger] r.pair_actions@[p] == (if f0[ins[p].buffer_index as int].constant {
                PairAction::FillConstant { out_was_constant: f0[outs[p].buffer_index as int].constant }
            } else {
                PairAction::Copy
            })
            &&& r.output_clears@.len() == outs.len()
            &&& forall|j: int| 0 <= j < outs.len() ==> #[trigger] r.output_clears@[j] == status_clears(
                *node,
                status,
                j,
                f0[outs[j].buffer_index as int],
                force,
            )
            &&& forall|j: int| 0 <= j < outs.len() ==> f[(#[trigger] outs[j]).buffer_index as int] == status_flag(
                *node,
                status,
                j,
                if j < ins.len() {
                    f0[ins[j].buffer_index as int]
                } else {
                    f0[outs[j].buffer_index as int]
                },
                f0[outs[j].buffer_index as int],
                force,
                frames,
                status is OutputsModifiedWithConstantMask && first_sample_is_zero@[j],
            )
            &&& forall|b: int|
                0 <= b < f0.len() && (forall|j: int| 0 <= j < outs.len() ==> (#[trigger] outs[j]).buffer_index != b) ==> #[trigger] f[b] == f0[b]
        }),
{
    let ghost ins = node_ins(*node);
    let ghost outs = node_outs(*node);
    let ghost f0 = flags@;
    let force = force_clear_buffers;
    let nin = in_list_len(&node.input_buffers);
    let nout = out_list_len(&node.output_buffers);
    let wants = node.node_wants_in_place_buffers;
    let npairs: usize = match status {
        ProcessStatus::Bypass => if !wants {
            if nin < nout {
                nin
            } else {
                nout
            }
        } else {
            0
        },
        _ => 0,
    };
    let mut pair_actions: Vec<PairAction> = Vec::new();
    let mut p: usize = 0;
    while p < npairs
        invariant
            p <= npairs,
            npairs <= nin,
            npairs <= nout,
            npairs > 0 ==> status == ProcessStatus::Bypass && !wants,
            nin == ins.len(),
            nout == outs.len(),
            wants == node.node_wants_in_place_buffers,
            ins == node_ins(*node),
            outs == node_outs(*node),
            buffers_valid(*node, f0.len() as int),
            flags@.len() == f0.len(),
            pair_actions@.len() == p,
            forall|q: int| 0 <= q < p ==> #[trigger] pair_actions@[q] == (if f0[ins[q].buffer_index as int].constant {
                PairAction::FillConstant { out_was_constant: f0[outs[q].buffer_index as int].constant }
            } else {
                PairAction::Copy
            }),
            forall|q: int| 0 <= q < p ==> flags@[(#[trigger] outs[q]).buffer_index as int] == f0[ins[q].buffer_index as int],
            forall|b: int| 0 <= b < f0.len() && (forall|q: int| 0 <= q < p ==> (#[trigger] outs[q]).buffer_index != b) ==> #[trigger] flags@[b] == f0[b],
        decreases npairs - p,
    {
        let a = in_list_get(&node.input_buffers, p);
        let o = out_list_get(&node.output_buffers, p);
        proof {
            assert(ins[p as int] == a);
            assert(outs[p as int] == o);
            assert forall|q: int| 0 <= q < p implies (#[trigger] outs[q]).buffer_index != a.buffer_index by {
                assert(ins[p as int].buffer_index != outs[q].buffer_index);
            }
            assert forall|q: int| 0 <= q < p implies (#[trigger] outs[q]).buffer_index != o.buffer_index by {
                assert(outs[q].buffer_index != outs[p as int].buffer_index);
            }
        }
        let in_flag = flags[a.buffer_index];
        let out_flag = flags[o.buffer_index];
        let action = if in_flag.constant {
            PairAction::FillConstant { out_was_constant: out_flag.constant }
        } else {
            PairAction::Copy
        };
        flags.set(o.buffer_index, in_flag);
        pair_actions.push(action);
        p = p + 1;
    }
    let ghost f1 = flags@;
    let mut output_clears: Vec<bool> = Vec::new();
    let mut j: usize = 0;
    while j < nout
        invariant
            force == force_clear_buffers,
            j <= nout,
            npairs <= nin,
            npairs <= nout,
            npairs == (if status == ProcessStatus::Bypass && !wants {
                if nin < nout {
                    nin
                } else {
                    nout
                }
            } else {
                0
            }),
            nin == ins.len(),
            nout == outs.len(),
            wants == node.node_wants_in_place_buffers,
            ins == node_ins(*node),
            outs == node_outs(*node),
            buffers_valid(*node, f0.len() as int),
            status is OutputsModifiedWithConstantMask ==> first_sample_is_zero@.len() >= nout,
            flags@.len() == f0.len(),
            output_clears@.len() == j,
            forall|q: int| 0 <= q < npairs ==> f1[(#[trigger] outs[q]).buffer_index as int] == f0[ins[q].buffer_index as int],
            forall|b: int| 0 <= b < f0.len() && (forall|q: int| 0 <= q < npairs ==> (#[trigger] outs[q]).buffer_index != b) ==> #[trigger] f1[b] == f0[b],
            forall|q: int| 0 <= q < j ==> #[trigger] output_clears@[q] == status_clears(
                *node,
                status,
                q,
                f0[outs[q].buffer_index as int],
                force_clear_buffers,
            ),
            forall|q: int| 0 <= q < j ==> flags@[(#[trigger] outs[q]).buffer_index as int] == status_flag(
                *node,
                status,
                q,
                if q < nin {
                    f0[ins[q].buffer_index as int]
                } else {
                    f0[outs[q].buffer_index as int]
                },
                f0[outs[q].buffer_index as int],
                force_clear_buffers,
                frames,
                status is OutputsModifiedWithConstantMask && first_sample_is_zero@[q],
            ),
            forall|b: int| 0 <= b < f0.len() && (forall|q: int| 0 <= q < j ==> (#[trigger] outs[q]).buffer_index != b) ==> #[trigger] flags@[b] == f1[b],
        decreases nout - j,
    {
        let o = out_list_get(&node.output_buffers, j);
        proof {
            assert(outs[j as int] == o);
            assert forall|q: int| 0 <= q < j implies (#[trigger] outs[q]).buffer_index != o.buffer_index by {
                assert(outs[q].buffer_index != outs[j as int].buffer_index);
            }
            if j >= npairs {
                assert forall|q: int| 0 <= q < npairs implies (#[trigger] outs[q]).buffer_index != o.buffer_index by {
                    assert(outs[q].buffer_index != outs[j as int].buffer_index);
                }
            }
        }
        let flag = flags[o.buffer_index];
        let (clear, new_flag) = match status {
            ProcessStatus::ClearAllOutputs => {
                if !flag.silent || force {
                    (true, BufferFlags { silent: true, constant: true, frames })
                } else {
                    (false, flag)
                }
            },
            ProcessStatus::Bypass => {
                if j >= nin && (!flag.silent || force) {
                    (true, BufferFlags { silent: true, constant: true, frames })
                } else {
                    (false, flag)
                }
            },
            ProcessStatus::OutputsModified => (false, BufferFlags { silent: false, constant: false, frames }),
            ProcessStatus::OutputsModifiedWithSilenceMask(m) => {
                let silent = is_channel_set(m, j);
                (false, BufferFlags { silent, constant: silent, frames })
            },
            ProcessStatus::OutputsModifiedWithConstantMask(m) => {
                if is_channel_set(m, j) {
                    (false, BufferFlags { silent: first_sample_is_zero[j], constant: true, frames })
                } else {
                    (false, BufferFlags { silent: false, constant: false, frames })
                }
            },
        };
        flags.set(o.buffer_index, new_flag);
        output_clears.push(clear);
        proof {
            if status == ProcessStatus::Bypass {
                if j < npairs {
                    assert(flag == f0[ins[j as int].buffer_index as int]);
                } else if j < nin {
                    assert(wants);
                    assert(flag == f0[outs[j as int].buffer_index as int]);
                } else {
                    assert(flag == f0[outs[j as int].buffer_index as int]);
                }
            } else {
                assert(flag == f0[outs[j as int].buffer_index as int]);
            }
            assert(clear == status_clears(*node, status, j as int, f0[outs[j as int].buffer_index as int], force));
            assert(new_flag == status_flag(
                *node,
                status,
                j as int,
                if j < nin {
                    f0[ins[j as int].buffer_index as int]
                } else {
                    f0[outs[j as int].buffer_index as int]
                },
                f0[outs[j as int].buffer_index as int],
                force,
                frames,
                status is OutputsModifiedWithConstantMask && first_sample_is_zero@[j as int],
            ));
        }
        j = j + 1;
    }
    StatusPlan { pair_actions, output_clears }
}

/// How to bring a buffer marked silent or constant over fewer frames than
/// the current block up to the block's length.
#[derive(Debug, Clone, Copy, PartialEq, Eq, Structural)]
pub struct TailFix {
    /// The buffer.
    pub buffer_index: usize,
    /// The frames that were known; the rest of the block is filled.
    pub from_frame: u16,
    /// Fill with zeros (the buffer is silent), or with the buffer's first
    /// sample (it is constant).
    pub silent: bool,
}

/// What is done to the buffers before a block is processed.
pub struct GraphInputPlan {
    /// The number of frames of the block.
    pub frames: usize,
    /// For each output of the graph's input node, whether to fill it with
    /// zeros (an output no stream channel fills, not known to be silent).
    pub zero_outputs: Vec<bool>,
    /// The buffers whose known-silent or known-constant contents must be
    /// extended to the whole block.
    pub tail_fixes: Vec<TailFix>,
}

/// Whether buffer `b` is assigned to an output of node `n`.
pub open spec fn is_output_buffer(n: ScheduledNode, b: int) -> bool {
    exists|i: int| 0 <= i < node_outs(n).len() && (#[trigger] node_outs(n)[i]).buffer_index == b
}

/// A block of `frames` frames, at most `max` long.
pub open spec fn clamp_frames(frames: usize, max: usize) -> usize {
    if frames < max {
        frames
    } else {
        max
    }
}

/// The number of outputs of the graph's input node that the stream fills.
pub open spec fn stream_fill(num_stream_inputs: usize, n: ScheduledNode) -> int {
    if num_stream_inputs < node_outs(n).len() {
        num_stream_inputs as int
    } else {
        node_outs(n).len() as int
    }
}

/// A buffer's flags after it is extended to `frames` frames when `fixes`
/// (it is a buffer of the schedule) and it needs it.
pub open spec fn tail_fixed(f: BufferFlags, fixes: bool, frames: u16) -> BufferFlags {
    if fixes && needs_tail_fix(f, frames) {
        BufferFlags { frames, ..f }
    } else {
        f
    }
}

/// A buffer known silent or constant over fewer frames than `frames`.
pub open spec fn needs_tail_fix(f: BufferFlags, frames: u16) -> bool {
    f.frames < frames && (f.silent || f.constant)
}

/// The compiled schedule: the order in which nodes run and the flags of
/// the buffers they share. The schedule starts with the graph's input node
/// and ends with its output node.
/// The IDs of `ids` other than `skip`, in order.
pub open spec fn ids_other_than(ids: Seq<NodeID>, skip: NodeID) -> Seq<NodeID>
    decreases ids.len(),
{
    if ids.len() == 0 {
        Seq::empty()
    } else {
        let prev = ids_other_than(ids.drop_last(), skip);
        if ids.last() != skip {
            prev.push(ids.last())
        } else {
            prev
        }
    }
}

/// The positions in `ids` of the IDs other than `skip`, in increasing
/// order.
pub open spec fn positions_other_than(ids: Seq<NodeID>, skip: NodeID) -> Seq<usize>
    decreases ids.len(),
{
    if ids.len() == 0 {
        Seq::empty()
    } else {
        let prev = positions_other_than(ids.drop_last(), skip);
        if ids.last() != skip {
            prev.push((ids.len() - 1) as usize)
        } else {
            prev
        }
    }
}

/// The pre-process nodes a block runs are the pre-process list with the
/// graph input node left out and nothing else: the list filtered by
/// `id != skip`, in order. So an ID of the list is run exactly when it is
/// not the graph input's, wherever it stands, and nothing else is run.
pub proof fn law_ids_other_than_filters(ids: Seq<NodeID>, skip: NodeID)
    ensures
        ids_other_than(ids, skip) == ids.filter(|n: NodeID| n != skip),
        forall|x: NodeID| #[trigger] ids_other_than(ids, skip).contains(x) <==> (ids.contains(x) && x != skip),
    decreases ids.len(),
{
    let pred = |n: NodeID| n != skip;
    if ids.len() > 0 {
        law_ids_other_than_filters(ids.drop_last(), skip);
        assert(ids.drop_last().push(ids.last()) =~= ids);
        ids.drop_last().lemma_filter_push(ids.last(), pred);
        let prev = ids_other_than(ids.drop_last(), skip);
        assert forall|x: NodeID| #[trigger] ids_other_than(ids, skip).contains(x) <==> (ids.contains(x) && x != skip) by {
            if ids.contains(x) && x != skip {
                let i = choose|i: int| 0 <= i < ids.len() && ids[i] == x;
                if i < ids.len() - 1 {
                    assert(ids.drop_last()[i] == x);
                    assert(ids.drop_last().contains(x));
                    assert(prev.contains(x));
                    let k = choose|k: int| 0 <= k < prev.len() && prev[k] == x;
                    if ids.last() != skip {
                        assert(prev.push(ids.last())[k] == x);
                    }
                } else {
                    assert(prev.push(ids.last())[prev.len() as int] == x);
                }
            }
            if ids_other_than(ids, skip).contains(x) {
                let k = choose|k: int| 0 <= k < ids_other_than(ids, skip).len() && ids_other_than(ids, skip)[k] == x;
                if ids.last() != skip && k == prev.len() {
                    assert(ids[ids.len() - 1] == x);
                } else {
                    assert(prev[k] == x);
                    assert(prev.contains(x));
                    let i = choose|i: int| 0 <= i < ids.drop_last().len() && ids.drop_last()[i] == x;
                    assert(ids[i] == x);
                }
            }
        }
    } else {
        reveal(Seq::filter);
    }
}

/// The positions a block runs are, in increasing order, exactly the
/// positions of the schedule whose node is not `skip`: each listed
/// position holds another node, and every position that holds another
/// node is listed.
pub proof fn law_positions_other_than(ids: Seq<NodeID>, skip: NodeID)
    requires
        ids.len() <= usize::MAX,
    ensures
        ({
            let p = positions_other_than(ids, skip);
            &&& forall|k: int| 0 <= k < p.len() ==> #[trigger] p[k] < ids.len() && ids[p[k] as int] != skip
            &&& forall|a: int, b: int| 0 <= a < b < p.len() ==> #[trigger] p[a] < #[trigger] p[b]
            &&& forall|i: int| 0 <= i < ids.len() && #[trigger] ids[i] != skip ==> p.contains(i as usize)
        }),
    decreases ids.len(),
{
    if ids.len() > 0 {
        let d = ids.drop_last();
        law_positions_other_than(d, skip);
        let prev = positions_other_than(d, skip);
        let p = positions_other_than(ids, skip);
        assert forall|k: int| 0 <= k < p.len() implies #[trigger] p[k] < ids.len() && ids[p[k] as int] != skip by {
            if k < prev.len() {
                assert(p[k] == prev[k]);
                assert(ids[prev[k] as int] == d[prev[k] as int]);
            } else {
                assert(ids.last() != skip);
                assert(p == prev.push((ids.len() - 1) as usize));
                assert(p[k] == (ids.len() - 1) as usize);
                assert(p[k] as int == ids.len() - 1);
            }
        }
        assert forall|a: int, b: int| 0 <= a < b < p.len() implies #[trigger] p[a] < #[trigger] p[b] by {
            if b < prev.len() {
                assert(p[a] == prev[a] && p[b] == prev[b]);
            } else {
                assert(ids.last() != skip);
                assert(p == prev.push((ids.len() - 1) as usize));
                assert(p[a] == prev[a]);
                assert(prev[a] < d.len());
                assert(p[b] as int == ids.len() - 1);
            }
        }
        assert forall|i: int| 0 <= i < ids.len() && #[trigger] ids[i] != skip implies p.contains(i as usize) by {
            if i < ids.len() - 1 {
                assert(d[i] == ids[i]);
                assert(prev.contains(i as usize));
                let k = choose|k: int| 0 <= k < prev.len() && prev[k] == i as usize;
                assert(p[k] == prev[k]);
            } else {
                assert(p[prev.len() as int] == i as usize);
            }
        }
    }
}

/// The IDs of the scheduled nodes, in order.
pub open spec fn scheduled_ids(s: Seq<ScheduledNode>) -> Seq<NodeID> {
    s.map_values(|n: ScheduledNode| n.id)
}

pub struct CompiledSchedule {
    pub pre_proc_nodes: Vec<NodeID>,
    pub schedule: Vec<ScheduledNode>,
    pub buffer_flags: Vec<BufferFlags>,
    pub num_buffers: usize,
    pub max_block_frames: usize,
    pub graph_in_node_id: NodeID,
    /// The buffers of the previous schedule are taken over (see
    /// [`CompiledSchedule::sync_new_buffers`]) rather than allocated anew.
    pub reuse_buffer_allocation: bool,
    /// How many buffers the allocation this schedule uses has room for.
    pub buffer_capacity: usize,
}

/// The flags `f` cut or extended to `n` buffers, the added buffers silent
/// over `frames` frames.
pub open spec fn resized_flags(f: Seq<BufferFlags>, n: nat, frames: u16) -> Seq<BufferFlags> {
    Seq::new(n, |i: int| if i < f.len() { f[i] } else { silent_flag(true, frames) })
}

impl CompiledSchedule {
    /// A schedule of `num_buffers` buffers. Where the previous schedule's
    /// allocation has room for them (`num_buffers <= prev_buffer_capacity`),
    /// it is taken over later (see [`Self::sync_new_buffers`]) and nothing
    /// is allocated: the flags stay empty until then and the capacity is
    /// the previous one. Otherwise every buffer starts silent over a whole
    /// block, and the capacity is the number of buffers.
    pub fn new(
        pre_proc_nodes: Vec<NodeID>,
        schedule: Vec<ScheduledNode>,
        num_buffers: usize,
        max_block_frames: usize,
        graph_in_node_id: NodeID,
        prev_buffer_capacity: usize,
    ) -> (r: CompiledSchedule)
        requires
            max_block_frames <= u16::MAX,
        ensures
            r.reuse_buffer_allocation == (num_buffers <= prev_buffer_capacity),
            r.reuse_buffer_allocation ==> r.buffer_flags@.len() == 0 && r.buffer_capacity == prev_buffer_capacity,
            !r.reuse_buffer_allocation ==> r.buffer_flags@.len() == num_buffers && r.buffer_capacity == num_buffers,
            !r.reuse_buffer_allocation ==> forall|b: int|
                0 <= b < num_buffers ==> #[trigger] r.buffer_flags@[b] == silent_flag(true, max_block_frames as u16),
            r.pre_proc_nodes@ == pre_proc_nodes@,
            r.schedule@ == schedule@,
            r.num_buffers == num_buffers,
            r.max_block_frames == max_block_frames,
            r.graph_in_node_id == graph_in_node_id,
    {
        if num_buffers <= prev_buffer_capacity {
            return CompiledSchedule {
                pre_proc_nodes,
                schedule,
                buffer_flags: Vec::new(),
                num_buffers,
                max_block_frames,
                graph_in_node_id,
                reuse_buffer_allocation: true,
                buffer_capacity: prev_buffer_capacity,
            };
        }
        let mut buffer_flags: Vec<BufferFlags> = Vec::with_capacity(num_buffers);
        let mut i: usize = 0;
        while i < num_buffers
            invariant
                i <= num_buffers,
                max_block_frames <= u16::MAX,
                buffer_flags@.len() == i,
                forall|b: int| 0 <= b < i ==> #[trigger] buffer_flags@[b] == silent_flag(true, max_block_frames as u16),
            decreases num_buffers - i,
        {
            buffer_flags.push(BufferFlags { silent: true, constant: true, frames: max_block_frames as u16 });
            i = i + 1;
        }
        CompiledSchedule {
            pre_proc_nodes,
            schedule,
            buffer_flags,
            num_buffers,
            max_block_frames,
            graph_in_node_id,
            reuse_buffer_allocation: false,
            buffer_capacity: num_buffers,
        }
    }

    /// How many buffers the allocation this schedule uses has room for.
    pub fn buffer_capacity(&self) -> (r: usize)
        ensures
            r == self.buffer_capacity,
    {
        self.buffer_capacity
    }

    /// Where this schedule reuses the previous one's buffers, takes over its
    /// buffer flags: they are cut or extended to this schedule's buffers,
    /// the added ones silent over a whole block, and the previous schedule
    /// gets this one's flags in exchange. Otherwise nothing changes.
    pub fn sync_new_buffers(&mut self, old_schedule: &mut CompiledSchedule)
        requires
            old(self).max_block_frames <= u16::MAX,
            old(self).reuse_buffer_allocation ==> old(old_schedule).max_block_frames == old(self).max_block_frames,
        ensures
            !old(self).reuse_buffer_allocation ==> *final(self) == *old(self) && *final(old_schedule) == *old(
                old_schedule,
            ),
            old(self).reuse_buffer_allocation ==> {
                &&& final(self).buffer_flags@ == resized_flags(
                    old(old_schedule).buffer_flags@,
                    old(self).num_buffers as nat,
                    old(self).max_block_frames as u16,
                )
                &&& *final(self) == (CompiledSchedule { buffer_flags: final(self).buffer_flags, ..*old(self) })
                &&& final(old_schedule).buffer_flags@ == old(self).buffer_flags@
                &&& *final(old_schedule) == (CompiledSchedule {
                    buffer_flags: final(old_schedule).buffer_flags,
                    ..*old(old_schedule)
                })
            },
    {
        if !self.reuse_buffer_allocation {
            return;
        }
        let ghost f = old_schedule.buffer_flags@;
        std::mem::swap(&mut self.buffer_flags, &mut old_schedule.buffer_flags);
        let n = self.num_buffers;
        let frames = self.max_block_frames as u16;
        self.buffer_flags.truncate(n);
        let ghost kept = self.buffer_flags@;
        while self.buffer_flags.len() < n
            invariant
                kept.len() <= self.buffer_flags@.len() <= n,
                kept == f.subrange(0, kept.len() as int),
                kept.len() == (if f.len() < n { f.len() as int } else { n as int }),
                forall|i: int| 0 <= i < kept.len() ==> #[trigger] self.buffer_flags@[i] == f[i],
                forall|i: int| kept.len() <= i < self.buffer_flags@.len() ==> #[trigger] self.buffer_flags@[i] == silent_flag(true, frames),
                n == self.num_buffers,
                frames == self.max_block_frames as u16,
                *self == (CompiledSchedule { buffer_flags: self.buffer_flags, ..*old(self) }),
                old_schedule.buffer_flags@ == old(self).buffer_flags@,
                *old_schedule == (CompiledSchedule { buffer_flags: old_schedule.buffer_flags, ..*old(old_schedule) }),
            decreases n - self.buffer_flags@.len(),
        {
            self.buffer_flags.push(BufferFlags { silent: true, constant: true, frames });
        }
        proof {
            assert(self.buffer_flags@ =~= resized_flags(f, n as nat, frames));
        }
    }

    /// The pre-process nodes a block runs, in order: all but the graph
    /// input node.
    pub fn pre_proc_nodes_to_run(&self) -> (r: Vec<NodeID>)
        ensures
            r@ == ids_other_than(self.pre_proc_nodes@, self.graph_in_node_id),
            r@ == self.pre_proc_nodes@.filter(|n: NodeID| n != self.graph_in_node_id),
            forall|id: NodeID| #[trigger] r@.contains(id) <==> (self.pre_proc_nodes@.contains(id) && id != self.graph_in_node_id),
    {
        let mut r: Vec<NodeID> = Vec::new();
        let mut i: usize = 0;
        while i < self.pre_proc_nodes.len()
            invariant
                i <= self.pre_proc_nodes@.len(),
                r@ == ids_other_than(self.pre_proc_nodes@.take(i as int), self.graph_in_node_id),
            decreases self.pre_proc_nodes@.len() - i,
        {
            let id = self.pre_proc_nodes[i];
            proof {
                assert(self.pre_proc_nodes@.take(i + 1).drop_last() =~= self.pre_proc_nodes@.take(i as int));
            }
            if id != self.graph_in_node_id {
                r.push(id);
            }
            i += 1;
        }
        proof {
            assert(self.pre_proc_nodes@.take(self.pre_proc_nodes@.len() as int) =~= self.pre_proc_nodes@);
            law_ids_other_than_filters(self.pre_proc_nodes@, self.graph_in_node_id);
        }
        r
    }

    /// The positions in the schedule of the nodes a block runs, in order:
    /// all but the graph input node (whose outputs the stream fills).
    pub fn scheduled_positions_to_run(&self) -> (r: Vec<usize>)
        ensures
            r@ == positions_other_than(scheduled_ids(self.schedule@), self.graph_in_node_id),
            forall|k: int| 0 <= k < r@.len() ==> #[trigger] r@[k] < self.schedule@.len() && self.schedule@[r@[k] as int].id
                != self.graph_in_node_id,
            forall|a: int, b: int| 0 <= a < b < r@.len() ==> #[trigger] r@[a] < #[trigger] r@[b],
            forall|i: int| 0 <= i < self.schedule@.len() && #[trigger] self.schedule@[i].id != self.graph_in_node_id
                ==> r@.contains(i as usize),
    {
        let ghost ids = scheduled_ids(self.schedule@);
        let mut r: Vec<usize> = Vec::new();
        let mut i: usize = 0;
        while i < self.schedule.len()
            invariant
                i <= self.schedule@.len(),
                ids == scheduled_ids(self.schedule@),
                r@ == positions_other_than(ids.take(i as int), self.graph_in_node_id),
            decreases self.schedule@.len() - i,
        {
            proof {
                assert(ids.take(i + 1).drop_last() =~= ids.take(i as int));
                assert(ids.take(i + 1).last() == self.schedule@[i as int].id);
            }
            if self.schedule[i].id != self.graph_in_node_id {
                r.push(i);
            }
            i += 1;
        }
        proof {
            assert(ids.take(ids.len() as int) =~= ids);
            law_positions_other_than(ids, self.graph_in_node_id);
            assert forall|i: int| 0 <= i < self.schedule@.len() && #[trigger] self.schedule@[i].id != self.graph_in_node_id
                implies r@.contains(i as usize) by {
                assert(ids[i] == self.schedule@[i].id);
            }
        }
        r
    }

    /// Whether some node runs before all others, with no buffers.
    pub fn has_pre_proc_nodes(&self) -> (r: bool)
        ensures
            r == (self.pre_proc_nodes@.len() > 0),
    {
        self.pre_proc_nodes.len() > 0
    }

    /// Marks the buffers of the graph's input node for a block of `frames`
    /// frames (at most a whole block): the outputs the stream fills
    /// (`min(num_stream_inputs, outputs)` of them) are silent as
    /// `input_silence_mask` says; the others are cleared unless already
    /// silent and clearing is not forced. Then every buffer known silent or
    /// constant over fewer frames is extended to the whole block.
    pub fn prepare_graph_inputs(
        &mut self,
        frames: usize,
        num_stream_inputs: usize,
        force_clear_buffers: bool,
        input_silence_mask: u64,
    ) -> (r: GraphInputPlan)
        requires
            old(self).schedule@.len() > 0,
            buffers_valid(old(self).schedule@[0], old(self).buffer_flags@.len() as int),
            old(self).max_block_frames <= u16::MAX,
            old(self).num_buffers <= old(self).buffer_flags@.len(),
        ensures
            r.frames == clamp_frames(frames, old(self).max_block_frames),
            final(self).buffer_flags@.len() == old(self).buffer_flags@.len(),
            r.zero_outputs@.len() == node_outs(old(self).schedule@[0]).len(),
            forall|i: int| 0 <= i < node_outs(old(self).schedule@[0]).len() ==> #[trigger] r.zero_outputs@[i] == (i >= stream_fill(
                num_stream_inputs,
                old(self).schedule@[0],
            ) && (!old(self).buffer_flags@[node_outs(old(self).schedule@[0])[i].buffer_index as int].silent || force_clear_buffers)),
            forall|i: int| 0 <= i < node_outs(old(self).schedule@[0]).len() ==> final(self).buffer_flags@[(
            #[trigger] node_outs(old(self).schedule@[0])[i]).buffer_index as int] == (if i < stream_fill(
                num_stream_inputs,
                old(self).schedule@[0],
            ) {
                silent_flag(mask_bit(input_silence_mask, i), clamp_frames(frames, old(self).max_block_frames) as u16)
            } else {
                silent_flag(true, clamp_frames(frames, old(self).max_block_frames) as u16)
            }),
            forall|b: int|
                0 <= b < old(self).buffer_flags@.len() && !is_output_buffer(old(self).schedule@[0], b) ==> #[trigger] final(self).buffer_flags@[b]
                    == tail_fixed(old(self).buffer_flags@[b], b < old(self).num_buffers, clamp_frames(frames, old(self).max_block_frames) as u16),
            forall|t: int| 0 <= t < r.tail_fixes@.len() ==> {
                let fx = #[trigger] r.tail_fixes@[t];
                let f0 = old(self).buffer_flags@;
                &&& fx.buffer_index < old(self).num_buffers
                &&& !is_output_buffer(old(self).schedule@[0], fx.buffer_index as int)
                &&& needs_tail_fix(f0[fx.buffer_index as int], clamp_frames(frames, old(self).max_block_frames) as u16)
                &&& fx.from_frame == f0[fx.buffer_index as int].frames
                &&& fx.silent == f0[fx.buffer_index as int].silent
            },
            forall|t1: int, t2: int| 0 <= t1 < t2 < r.tail_fixes@.len() ==> (#[trigger] r.tail_fixes@[t1]).buffer_index
                < (#[trigger] r.tail_fixes@[t2]).buffer_index,
            forall|b: int|
                0 <= b < old(self).num_buffers && !is_output_buffer(old(self).schedule@[0], b) && #[trigger] needs_tail_fix(
                    old(self).buffer_flags@[b],
                    clamp_frames(frames, old(self).max_block_frames) as u16,
                ) ==> exists|t: int| 0 <= t < r.tail_fixes@.len() && (#[trigger] r.tail_fixes@[t]).buffer_index == b,
            final(self).schedule@ == old(self).schedule@,
            final(self).num_buffers == old(self).num_buffers,
            final(self).max_block_frames == old(self).max_block_frames,
    {
        let ghost frames_param = frames;
        let frames = if frames < self.max_block_frames {
            frames
        } else {
            self.max_block_frames
        };
        let frames_u16 = frames as u16;
        let ghost f0 = self.buffer_flags@;
        let ghost n = self.schedule@[0];
        let ghost outs = node_outs(n);
        let nout = out_list_len(&self.schedule[0].output_buffers);
        let fill = if num_stream_inputs < nout {
            num_stream_inputs
        } else {
            nout
        };
        let mut zero_outputs: Vec<bool> = Vec::new();
        let mut i: usize = 0;
        while i < nout
            invariant
                i <= nout,
                nout == outs.len(),
                fill <= nout,
                fill == (if num_stream_inputs < outs.len() { num_stream_inputs as int } else { outs.len() as int }),
                self.schedule@.len() > 0,
                n == self.schedule@[0],
                outs == node_outs(n),
                buffers_valid(n, f0.len() as int),
                self.buffer_flags@.len() == f0.len(),
                zero_outputs@.len() == i,
                forall|q: int| 0 <= q < i ==> #[trigger] zero_outputs@[q] == (q >= fill && (!f0[outs[q].buffer_index as int].silent
                    || force_clear_buffers)),
                forall|q: int| 0 <= q < i ==> self.buffer_flags@[(#[trigger] outs[q]).buffer_index as int] == (if q < fill {
                    silent_flag(mask_bit(input_silence_mask, q), frames_u16)
                } else {
                    silent_flag(true, frames_u16)
                }),
                forall|b: int| 0 <= b < f0.len() && (forall|q: int| 0 <= q < i ==> (#[trigger] outs[q]).buffer_index != b) ==> #[trigger] self.buffer_flags@[b] == f0[b],
                self.num_buffers == old(self).num_buffers,
                self.max_block_frames == old(self).max_block_frames,
                self.schedule@ == old(self).schedule@,
            decreases nout - i,
        {
            let o = out_list_get(&self.schedule[0].output_buffers, i);
            proof {
                assert(outs[i as int] == o);
                assert forall|q: int| 0 <= q < i implies (#[trigger] outs[q]).buffer_index != o.buffer_index by {
                    assert(outs[q].buffer_index != outs[i as int].buffer_index);
                }
            }
            let flag = self.buffer_flags[o.buffer_index];
            if i < fill {
                let silent = is_channel_set(input_silence_mask, i);
                self.buffer_flags.set(o.buffer_index, BufferFlags { silent, constant: silent, frames: frames_u16 });
                zero_outputs.push(false);
            } else {
                let zero = !flag.silent || force_clear_buffers;
                self.buffer_flags.set(o.buffer_index, BufferFlags { silent: true, constant: true, frames: frames_u16 });
                zero_outputs.push(zero);
            }
            i = i + 1;
        }
        let ghost f1 = self.buffer_flags@;
        proof {
            assert forall|b: int| 0 <= b < f0.len() && !is_output_buffer(n, b) implies #[trigger] f1[b] == f0[b] by {
                assert forall|q: int| 0 <= q < nout implies (#[trigger] outs[q]).buffer_index != b by {}
            }
            assert forall|b: int| 0 <= b < f0.len() && is_output_buffer(n, b) implies !needs_tail_fix(#[trigger] f1[b], frames_u16) by {
                let i = choose|i: int| 0 <= i < outs.len() && (#[trigger] outs[i]).buffer_index == b;
                assert(f1[outs[i].buffer_index as int].frames == frames_u16);
            }
        }
        let mut tail_fixes: Vec<TailFix> = Vec::new();
        let nb = self.num_buffers;
        let mut b: usize = 0;
        while b < nb
            invariant
                b <= nb,
                nb == self.num_buffers,
                nb <= f0.len(),
                self.buffer_flags@.len() == f0.len(),
                forall|c: int| 0 <= c < f0.len() && !is_output_buffer(n, c) ==> #[trigger] f1[c] == f0[c],
                forall|c: int| 0 <= c < f0.len() && is_output_buffer(n, c) ==> !needs_tail_fix(#[trigger] f1[c], frames_u16),
                forall|c: int| 0 <= c < b ==> #[trigger] self.buffer_flags@[c] == (if needs_tail_fix(f1[c], frames_u16) {
                    BufferFlags { frames: frames_u16, ..f1[c] }
                } else {
                    f1[c]
                }),
                forall|c: int| b <= c < f0.len() ==> #[trigger] self.buffer_flags@[c] == f1[c],
                forall|t: int| 0 <= t < tail_fixes@.len() ==> {
                    let fx = #[trigger] tail_fixes@[t];
                    &&& fx.buffer_index < b
                    &&& needs_tail_fix(f1[fx.buffer_index as int], frames_u16)
                    &&& fx.from_frame == f1[fx.buffer_index as int].frames
                    &&& fx.silent == f1[fx.buffer_index as int].silent
                },
                forall|t1: int, t2: int| 0 <= t1 < t2 < tail_fixes@.len() ==> (#[trigger] tail_fixes@[t1]).buffer_index
                    < (#[trigger] tail_fixes@[t2]).buffer_index,
                forall|c: int| 0 <= c < b && #[trigger] needs_tail_fix(f1[c], frames_u16) ==> exists|t: int|
                    0 <= t < tail_fixes@.len() && (#[trigger] tail_fixes@[t]).buffer_index == c,
                self.num_buffers == old(self).num_buffers,
                self.max_block_frames == old(self).max_block_frames,
                self.schedule@ == old(self).schedule@,
            decreases nb - b,
        {
            let flag = self.buffer_flags[b];
            let ghost old_fixes = tail_fixes@;
            if flag.frames < frames_u16 && (flag.silent || flag.constant) {
                tail_fixes.push(TailFix { buffer_index: b, from_frame: flag.frames, silent: flag.silent });
                self.buffer_flags.set(b, BufferFlags { frames: frames_u16, ..flag });
                proof {
                    assert(tail_fixes@[tail_fixes@.len() - 1].buffer_index == b);
                }
            }
            proof {
                assert forall|c: int| 0 <= c < b + 1 && #[trigger] needs_tail_fix(f1[c], frames_u16) implies exists|t: int|
                    0 <= t < tail_fixes@.len() && (#[trigger] tail_fixes@[t]).buffer_index == c by {
                    if c < b {
                        let t = choose|t: int| 0 <= t < old_fixes.len() && (#[trigger] old_fixes[t]).buffer_index == c;
                        assert(tail_fixes@[t] == old_fixes[t]);
                    } else {
                        assert(tail_fixes@[tail_fixes@.len() - 1].buffer_index == c);
                    }
                }
            }
            b = b + 1;
        }
        proof {
            let f = self.buffer_flags@;
            assert forall|q: int| 0 <= q < nout implies f[(#[trigger] outs[q]).buffer_index as int] == (if q < fill {
                silent_flag(mask_bit(input_silence_mask, q), frames_u16)
            } else {
                silent_flag(true, frames_u16)
            }) by {
                let bb = outs[q].buffer_index as int;
                assert(is_output_buffer(n, bb));
                assert(!needs_tail_fix(f1[bb], frames_u16));
            }
            assert forall|t: int| 0 <= t < tail_fixes@.len() implies !is_output_buffer(n, (#[trigger] tail_fixes@[t]).buffer_index as int) by {
                let bb = tail_fixes@[t].buffer_index as int;
                if is_output_buffer(n, bb) {
                    assert(!needs_tail_fix(f1[bb], frames_u16));
                }
            }
            assert forall|t: int| 0 <= t < tail_fixes@.len() implies f1[(#[trigger] tail_fixes@[t]).buffer_index as int] == f0[tail_fixes@[t].buffer_index as int] by {
                assert(!is_output_buffer(n, tail_fixes@[t].buffer_index as int));
            }
            assert forall|c: int| 0 <= c < nb && !is_output_buffer(n, c) && #[trigger] needs_tail_fix(f0[c], frames_u16) implies exists|t: int|
                0 <= t < tail_fixes@.len() && (#[trigger] tail_fixes@[t]).buffer_index == c by {
                assert(f1[c] == f0[c]);
                assert(needs_tail_fix(f1[c], frames_u16));
            }
            let f = self.buffer_flags@;
            assert forall|c: int| 0 <= c < f0.len() && !is_output_buffer(n, c) implies #[trigger] f[c] == (if c < nb && needs_tail_fix(f0[c], frames_u16) {
                BufferFlags { frames: frames_u16, ..f0[c] }
            } else {
                f0[c]
            }) by {
                assert(f1[c] == f0[c]);
            }
        }
        let r = GraphInputPlan { frames, zero_outputs, tail_fixes };
        proof {
            assert forall|c: int|
                0 <= c < old(self).num_buffers && !is_output_buffer(old(self).schedule@[0], c) && #[trigger] needs_tail_fix(
                    old(self).buffer_flags@[c],
                    clamp_frames(frames_param, old(self).max_block_frames) as u16,
                ) implies exists|t: int| 0 <= t < r.tail_fixes@.len() && (#[trigger] r.tail_fixes@[t]).buffer_index == c by {
                assert(clamp_frames(frames_param, old(self).max_block_frames) as u16 == frames_u16);
                assert(f1[c] == f0[c]);
                assert(needs_tail_fix(f1[c], frames_u16));
                let t = choose|t: int| 0 <= t < r.tail_fixes@.len() && (#[trigger] r.tail_fixes@[t]).buffer_index == c;
                assert(r.tail_fixes@[t].buffer_index == c);
            }
        }
        r
    }

    /// Which of the first `min(num_stream_outputs, inputs)` inputs of the
    /// graph's output node are silent, as a mask.
    pub fn read_graph_outputs(&self, num_stream_outputs: usize) -> (r: u64)
        requires
            self.schedule@.len() > 0,
            buffers_valid(self.schedule@.last(), self.buffer_flags@.len() as int),
        ensures
            ({
                let ins = node_ins(self.schedule@.last());
                forall|j: int| 0 <= j < 64 ==> #[trigger] mask_bit(r, j) == (j < num_stream_outputs && j < ins.len()
                    && self.buffer_flags@[ins[j].buffer_index as int].silent)
            }),
    {
        let last = self.schedule.len() - 1;
        let ghost ins = node_ins(self.schedule@.last());
        let nin = in_list_len(&self.schedule[last].input_buffers);
        let n = if num_stream_outputs < nin {
            num_stream_outputs
        } else {
            nin
        };
        let mut mask: u64 = 0;
        proof {
            lemma_mask_zero();
        }
        let mut i: usize = 0;
        while i < n
            invariant
                i <= n,
                n <= nin,
                nin == ins.len(),
                nin <= 64,
                last == self.schedule@.len() - 1,
                ins == node_ins(self.schedule@[last as int]),
                n == (if num_stream_outputs < nin { num_stream_outputs } else { nin }),
                buffers_valid(self.schedule@.last(), self.buffer_flags@.len() as int),
                forall|j: int| 0 <= j < 64 ==> #[trigger] mask_bit(mask, j) == (j < i && self.buffer_flags@[ins[j].buffer_index as int].silent),
            decreases n - i,
        {
            let a = in_list_get(&self.schedule[last].input_buffers, i);
            if self.buffer_flags[a.buffer_index].silent {
                mask = set_channel(mask, i, true);
            }
            i = i + 1;
        }
        mask
    }
}

} // verus!
