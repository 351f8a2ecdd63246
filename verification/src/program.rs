//! Compiled programs and their mutable execution state.
//!
//! A [`Program`] is the immutable artifact produced by compiling a circuit
//! graph: per-node instruction sequences over a single accumulator, plus the
//! boundary maps tying external inputs, external outputs and nexuses to
//! memory slots. A [`State`] owns the double-buffered memory banks and the
//! two dirty sets that drive incremental re-evaluation.

use vstd::prelude::*;

use crate::SENTINEL;
use crate::graph::NexusHandle;
use crate::integer_set::IntegerSet;
use std::sync::Arc;

verus! {

#[verifier::external_type_specification]
#[verifier::external_body]
#[verifier::reject_recursive_types(Head)]
#[verifier::reject_recursive_types(SliceItem)]
pub struct ExThinArc<Head, SliceItem>(thin_dst::ThinArc<Head, SliceItem>);

/// The items held by a shared read-only memory table, in order.
pub uninterp spec fn rom_table_contents(table: thin_dst::ThinArc<(), usize>) -> Seq<usize>;

/// Relies on thin_dst::ThinArc::new: the allocated shared slice holds exactly
/// the items the iterator yields, in order. The iterator of a Vec reports its
/// length correctly, so the call does not panic.
#[verifier::external_body]
pub fn rom_table_new(contents: &Vec<usize>) -> (r: thin_dst::ThinArc<(), usize>)
    ensures
        rom_table_contents(r) == contents@,
{
    thin_dst::ThinArc::new((), contents.iter().copied())
}

/// Relies on the slice field of thin_dst::ThinData, reached through ThinArc's
/// Deref impl: it holds the items the table was created with.
#[verifier::external_body]
pub fn rom_table_get(table: &thin_dst::ThinArc<(), usize>, index: usize) -> (r: Option<usize>)
    ensures
        r == (if index < rom_table_contents(*table).len() {
            Some(rom_table_contents(*table)[index as int])
        } else {
            None::<usize>
        }),
{
    table.slice.get(index).copied()
}

/// One instruction of the single-accumulator stream.
///
/// Slot operands equal to [`SENTINEL`] stand for an unconnected port; the
/// interpreter detects and skips them.
#[allow(inconsistent_fields)]
pub enum IrOp {
    /// If bit 0 of `wr[a]` differs from bit 0 of `rd[a]`, insert `node` into
    /// the next dirty set.
    CheckDirty { a: usize, node: usize },
    /// `wr[out] := acc`
    Save { out: usize },
    /// `acc := acc & rd[a]`
    And { a: usize },
    /// `acc := acc | rd[a]`
    Or { a: usize },
    /// `acc := acc ^ rd[a]`
    Xor { a: usize },
    /// `acc := acc & i`
    Andi { i: usize },
    /// `acc := acc ^ i`
    Xori { i: usize },
    /// `acc := acc << i`
    Slli { i: u8 },
    /// `acc := acc >> i`
    Srli { i: u8 },
    /// `acc := value`
    Load { value: usize },
    /// `acc := rd[a]`
    Copy { a: usize },
    /// `acc := memory[acc]`, or 0 if out of range
    Read { memory: thin_dst::ThinArc<(), usize> },
}

/// Mathematical image of an [`IrOp`]: the shared table is replaced by its
/// contents, so that op semantics are a pure function of the model.
#[allow(inconsistent_fields)]
pub enum OpModel {
    CheckDirty { a: usize, node: usize },
    Save { out: usize },
    And { a: usize },
    Or { a: usize },
    Xor { a: usize },
    Andi { i: usize },
    Xori { i: usize },
    Slli { i: u8 },
    Srli { i: u8 },
    Load { value: usize },
    Copy { a: usize },
    Read { table: Seq<usize> },
}

pub open spec fn op_model(op: IrOp) -> OpModel {
    match op {
        IrOp::CheckDirty { a, node } => OpModel::CheckDirty { a, node },
        IrOp::Save { out } => OpModel::Save { out },
        IrOp::And { a } => OpModel::And { a },
        IrOp::Or { a } => OpModel::Or { a },
        IrOp::Xor { a } => OpModel::Xor { a },
        IrOp::Andi { i } => OpModel::Andi { i },
        IrOp::Xori { i } => OpModel::Xori { i },
        IrOp::Slli { i } => OpModel::Slli { i },
        IrOp::Srli { i } => OpModel::Srli { i },
        IrOp::Load { value } => OpModel::Load { value },
        IrOp::Copy { a } => OpModel::Copy { a },
        IrOp::Read { memory } => OpModel::Read { table: rom_table_contents(memory) },
    }
}

pub open spec fn ops_models(ops: Seq<IrOp>) -> Seq<OpModel> {
    ops.map(|_i: int, op: IrOp| op_model(op))
}

/// Every slot operand is either [`SENTINEL`] or within the memory bank, and
/// shift amounts are within the word width.
pub open spec fn op_valid(op: OpModel, len: nat) -> bool {
    match op {
        OpModel::CheckDirty { a, .. } => a == SENTINEL || a < len,
        OpModel::Save { out } => out == SENTINEL || out < len,
        OpModel::And { a } => a == SENTINEL || a < len,
        OpModel::Or { a } => a == SENTINEL || a < len,
        OpModel::Xor { a } => a == SENTINEL || a < len,
        OpModel::Andi { .. } => true,
        OpModel::Xori { .. } => true,
        OpModel::Slli { i } => (i as u32) < usize::BITS,
        OpModel::Srli { i } => (i as u32) < usize::BITS,
        OpModel::Load { .. } => true,
        OpModel::Copy { a } => a == SENTINEL || a < len,
        OpModel::Read { .. } => true,
    }
}

pub open spec fn ops_valid(ops: Seq<OpModel>, len: nat) -> bool {
    forall|k: int| 0 <= k < ops.len() ==> op_valid(#[trigger] ops[k], len)
}

/// Accumulator, write bank and pending dirty marks threaded through one
/// instruction sequence.
pub struct RunState {
    pub acc: usize,
    pub wr: Seq<usize>,
    pub dirty: Set<usize>,
}

/// Semantics of a single instruction.
pub open spec fn op_step(op: OpModel, rd: Seq<usize>, st: RunState) -> RunState {
    match op {
        OpModel::CheckDirty { a, node } => {
            if a == SENTINEL {
                st
            } else if st.wr[a as int] & 1 != rd[a as int] & 1 {
                RunState { dirty: st.dirty.insert(node), ..st }
            } else {
                st
            }
        },
        OpModel::Save { out } => {
            if out == SENTINEL {
                st
            } else {
                RunState { wr: st.wr.update(out as int, st.acc), ..st }
            }
        },
        OpModel::And { a } => {
            if a == SENTINEL {
                st
            } else {
                RunState { acc: st.acc & rd[a as int], ..st }
            }
        },
        OpModel::Or { a } => {
            if a == SENTINEL {
                st
            } else {
                RunState { acc: st.acc | rd[a as int], ..st }
            }
        },
        OpModel::Xor { a } => {
            if a == SENTINEL {
                st
            } else {
                RunState { acc: st.acc ^ rd[a as int], ..st }
            }
        },
        OpModel::Andi { i } => RunState { acc: st.acc & i, ..st },
        OpModel::Xori { i } => RunState { acc: st.acc ^ i, ..st },
        OpModel::Slli { i } => RunState { acc: st.acc << i, ..st },
        OpModel::Srli { i } => RunState { acc: st.acc >> i, ..st },
        OpModel::Load { value } => RunState { acc: value, ..st },
        OpModel::Copy { a } => {
            if a == SENTINEL {
                st
            } else {
                RunState { acc: rd[a as int], ..st }
            }
        },
        OpModel::Read { table } => {
            RunState {
                acc: (if st.acc < table.len() {
                    table[st.acc as int]
                } else {
                    0
                }),
                ..st
            }
        },
    }
}

/// Semantics of an instruction sequence: fold [`op_step`] left to right.
pub open spec fn run_ops(ops: Seq<OpModel>, rd: Seq<usize>, st: RunState) -> RunState
    decreases ops.len(),
{
    if ops.len() == 0 {
        st
    } else {
        run_ops(ops.drop_first(), rd, op_step(ops[0], rd, st))
    }
}

/// Run one node's instruction sequence against the read bank `rd`, writing
/// results into `wr` and marking changed nodes in `dirty`. The accumulator
/// starts at zero; every emitted node sequence begins with a `Load` or
/// `Copy`, so no instruction observes it.
pub fn run(ops: &Vec<IrOp>, rd: &Vec<usize>, wr: &mut Vec<usize>, dirty: &mut IntegerSet)
    requires
        rd@.len() == old(wr)@.len(),
        ops_valid(ops_models(ops@), old(wr)@.len()),
        old(dirty).wf(),
    ensures
        final(dirty).wf(),
        final(wr)@.len() == old(wr)@.len(),
        ({
            let st = run_ops(
                ops_models(ops@),
                rd@,
                RunState { acc: 0, wr: old(wr)@, dirty: old(dirty)@ },
            );
            final(wr)@ == st.wr && final(dirty)@ == st.dirty
        }),
{
    let ghost models = ops_models(ops@);
    let ghost init = RunState { acc: 0, wr: wr@, dirty: dirty@ };
    let mut acc: usize = 0;
    let mut k: usize = 0;
    proof {
        assert(models.skip(0) =~= models);
    }
    while k < ops.len()
        invariant
            k <= ops@.len(),
            models == ops_models(ops@),
            models.len() == ops@.len(),
            rd@.len() == wr@.len(),
            ops_valid(models, wr@.len()),
            dirty.wf(),
            run_ops(models, rd@, init) == run_ops(
                models.skip(k as int),
                rd@,
                RunState { acc, wr: wr@, dirty: dirty@ },
            ),
        decreases ops@.len() - k,
    {
        let ghost pre = RunState { acc, wr: wr@, dirty: dirty@ };
        proof {
            assert(models.skip(k as int)[0] == models[k as int]);
            assert(models.skip(k as int).drop_first() =~= models.skip(k as int + 1));
            assert(op_valid(models[k as int], wr@.len()));
        }
        match &ops[k] {
            IrOp::CheckDirty { a, node } => {
                if *a != SENTINEL {
                    if wr[*a] & 1 != rd[*a] & 1 {
                        dirty.insert(*node);
                    }
                }
            },
            IrOp::Save { out } => {
                if *out != SENTINEL {
                    wr[*out] = acc;
                }
            },
            IrOp::And { a } => {
                if *a != SENTINEL {
                    acc = acc & rd[*a];
                }
            },
            IrOp::Or { a } => {
                if *a != SENTINEL {
                    acc = acc | rd[*a];
                }
            },
            IrOp::Xor { a } => {
                if *a != SENTINEL {
                    acc = acc ^ rd[*a];
                }
            },
            IrOp::Andi { i } => {
                acc = acc & *i;
            },
            IrOp::Xori { i } => {
                acc = acc ^ *i;
            },
            IrOp::Slli { i } => {
                acc = acc << (*i as usize);
            },
            IrOp::Srli { i } => {
                acc = acc >> (*i as usize);
            },
            IrOp::Load { value } => {
                acc = *value;
            },
            IrOp::Copy { a } => {
                if *a != SENTINEL {
                    acc = rd[*a];
                }
            },
            IrOp::Read { memory } => {
                acc = match rom_table_get(memory, acc) {
                    Some(v) => v,
                    None => 0,
                };
            },
        }
        proof {
            assert(RunState { acc, wr: wr@, dirty: dirty@ } == op_step(
                models[k as int],
                rd@,
                pre,
            ));
        }
        k = k + 1;
    }
    proof {
        assert(models.skip(models.len() as int) =~= Seq::<OpModel>::empty());
    }
}

/// One compiled node: its emitted instruction sequence.
pub struct Node {
    pub ir: Vec<IrOp>,
}

/// The state of an input or output.
#[derive(Clone, Copy, Debug, PartialEq, Eq, Structural)]
pub enum Value {
    Driven(usize),
    Floating,
    Short,
}

/// The immutable compiled artifact.
pub struct Program {
    nodes: Vec<Node>,
    memory_size: usize,
    nexus_map: Vec<usize>,
    input_map: Vec<(usize, usize)>,
    output_map: Vec<(usize, usize)>,
    input_nodes_map: Vec<Vec<usize>>,
}

/// Mathematical image of a [`Program`].
pub struct ProgramModel {
    /// Per-node instruction models.
    pub nodes: Seq<Seq<OpModel>>,
    /// The amount of memory needed to run this program.
    pub memory_size: usize,
    /// Nexus index to memory slot; [`SENTINEL`] for dead nexuses.
    pub nexus_map: Seq<usize>,
    /// External input index to (slot, mask); slot is [`SENTINEL`] if unmapped.
    pub input_map: Seq<(usize, usize)>,
    /// External output index to (slot, mask); slot is [`SENTINEL`] if unmapped.
    pub output_map: Seq<(usize, usize)>,
    /// External input index to the nodes to wake when it changes.
    pub input_nodes_map: Seq<Seq<usize>>,
}

/// Slot operands of every instruction and of the boundary maps stay within
/// the memory bank (or are [`SENTINEL`]).
pub open spec fn program_wf(p: ProgramModel) -> bool {
    &&& p.input_nodes_map.len() == p.input_map.len()
    &&& forall|n: int|
        0 <= n < p.nodes.len() ==> ops_valid(#[trigger] p.nodes[n], p.memory_size as nat)
    &&& forall|i: int|
        0 <= i < p.nexus_map.len() ==> (#[trigger] p.nexus_map[i]) == SENTINEL || p.nexus_map[i]
            < p.memory_size
    &&& forall|i: int|
        0 <= i < p.input_map.len() ==> (#[trigger] p.input_map[i]).0 == SENTINEL
            || p.input_map[i].0 < p.memory_size
    &&& forall|i: int|
        0 <= i < p.output_map.len() ==> (#[trigger] p.output_map[i]).0 == SENTINEL
            || p.output_map[i].0 < p.memory_size
}

impl Program {
    pub closed spec fn model(&self) -> ProgramModel {
        ProgramModel {
            nodes: self.nodes@.map(|_i: int, n: Node| ops_models(n.ir@)),
            memory_size: self.memory_size,
            nexus_map: self.nexus_map@,
            input_map: self.input_map@,
            output_map: self.output_map@,
            input_nodes_map: self.input_nodes_map@.map(|_i: int, v: Vec<usize>| v@),
        }
    }

    /// Assemble a program from its parts.
    pub(crate) fn assemble(
        nodes: Vec<Node>,
        memory_size: usize,
        nexus_map: Vec<usize>,
        input_map: Vec<(usize, usize)>,
        output_map: Vec<(usize, usize)>,
        input_nodes_map: Vec<Vec<usize>>,
    ) -> (r: Program)
        ensures
            r.model().nodes == nodes@.map(|_i: int, n: Node| ops_models(n.ir@)),
            r.model().memory_size == memory_size,
            r.model().nexus_map == nexus_map@,
            r.model().input_map == input_map@,
            r.model().output_map == output_map@,
            r.model().input_nodes_map == input_nodes_map@.map(|_i: int, v: Vec<usize>| v@),
    {
        Program { nodes, memory_size, nexus_map, input_map, output_map, input_nodes_map }
    }

    pub fn memory_size(&self) -> (r: usize)
        ensures
            r == self.model().memory_size,
    {
        self.memory_size
    }

    pub fn nexus_map(&self) -> (r: &Vec<usize>)
        ensures
            r@ == self.model().nexus_map,
    {
        &self.nexus_map
    }

    pub fn input_map(&self) -> (r: &Vec<(usize, usize)>)
        ensures
            r@ == self.model().input_map,
    {
        &self.input_map
    }

    pub fn output_map(&self) -> (r: &Vec<(usize, usize)>)
        ensures
            r@ == self.model().output_map,
    {
        &self.output_map
    }

    /// Construct a fresh state for this program: zeroed banks, every node
    /// scheduled for the first step.
    pub fn new_state(self: Arc<Program>) -> (r: State)
        requires
            program_wf(self.model()),
        ensures
            r.wf(),
            r.model().program == self.model(),
            r.model().read =~= Seq::new(self.model().memory_size as nat, |i: int| 0usize),
            r.model().write =~= Seq::new(self.model().memory_size as nat, |i: int| 0usize),
            forall|n: usize|
                (r.model().update_dirty.contains(n) <==> n < self.model().nodes.len()),
            r.model().mark_dirty =~= Set::<usize>::empty(),
    {
        let n_nodes = self.nodes.len();
        let mut update_dirty = IntegerSet::new();
        let mut n: usize = 0;
        while n < n_nodes
            invariant
                n <= n_nodes,
                update_dirty.wf(),
                forall|x: usize| update_dirty@.contains(x) <==> x < n,
            decreases n_nodes - n,
        {
            update_dirty.insert(n);
            n = n + 1;
        }
        let memory_size = self.memory_size;
        let write = zeroed_bank(memory_size);
        let read = zeroed_bank(memory_size);
        State { program: self, update_dirty, mark_dirty: IntegerSet::new(), write, read }
    }
}

fn zeroed_bank(len: usize) -> (r: Vec<usize>)
    ensures
        r@ =~= Seq::new(len as nat, |i: int| 0usize),
{
    let mut v: Vec<usize> = Vec::new();
    let mut i: usize = 0;
    while i < len
        invariant
            i <= len,
            v@ =~= Seq::new(i as nat, |j: int| 0usize),
        decreases len - i,
    {
        v.push(0);
        i = i + 1;
    }
    v
}

/// The mutable companion of a [`Program`]: double-buffered memory and the
/// two dirty sets.
pub struct State {
    /// The program associated with this state.
    program: Arc<Program>,
    /// All nodes that need an update in the next step.
    update_dirty: IntegerSet,
    /// Nodes marked during the current step, to be updated on the next one.
    mark_dirty: IntegerSet,
    /// Memory bank written during a step.
    write: Vec<usize>,
    /// Memory bank read during a step.
    read: Vec<usize>,
}

/// Mathematical image of a [`State`].
pub struct StateModel {
    pub program: ProgramModel,
    pub update_dirty: Set<usize>,
    pub mark_dirty: Set<usize>,
    pub write: Seq<usize>,
    pub read: Seq<usize>,
}

/// Semantics of one full evaluation pass: run every node in order against
/// the fixed read bank `rd`, threading the write bank and the dirty marks.
pub open spec fn run_nodes(
    nodes: Seq<Seq<OpModel>>,
    rd: Seq<usize>,
    wr: Seq<usize>,
    dirty: Set<usize>,
) -> (Seq<usize>, Set<usize>)
    decreases nodes.len(),
{
    if nodes.len() == 0 {
        (wr, dirty)
    } else {
        let st = run_ops(nodes[0], rd, RunState { acc: 0, wr, dirty });
        run_nodes(nodes.drop_first(), rd, st.wr, st.dirty)
    }
}

/// Semantics of [`State::step`]: evaluate all nodes, publish the write bank
/// to both banks, and swap the dirty sets.
pub open spec fn spec_step(s: StateModel) -> StateModel {
    let r = run_nodes(s.program.nodes, s.read, s.write, s.mark_dirty);
    StateModel {
        program: s.program,
        update_dirty: r.1,
        mark_dirty: Set::empty(),
        read: r.0,
        write: r.0,
    }
}

/// Semantics of writing one external input.
pub open spec fn write_input_one(s: StateModel, v: Value, i: int) -> StateModel {
    if i >= s.program.input_map.len() {
        s
    } else {
        let k = s.program.input_map[i].0;
        let mask = s.program.input_map[i].1;
        if k == SENTINEL {
            s
        } else {
            match v {
                Value::Driven(o) => {
                    let val = o & mask;
                    let was_dirty = (s.read[k as int] & mask) != val;
                    StateModel {
                        read: s.read.update(k as int, val),
                        write: s.write.update(k as int, val),
                        update_dirty: if was_dirty {
                            s.update_dirty.union(s.program.input_nodes_map[i].to_set())
                        } else {
                            s.update_dirty
                        },
                        ..s
                    }
                },
                _ => s,
            }
        }
    }
}

/// Semantics of [`State::write_inputs`]: apply the first `n` inputs in order.
pub open spec fn spec_write_inputs(s: StateModel, inputs: Seq<Value>, n: int) -> StateModel
    decreases n,
{
    if n <= 0 {
        s
    } else {
        write_input_one(spec_write_inputs(s, inputs, n - 1), inputs[n - 1], n - 1)
    }
}

/// The value read back for external output `i`.
pub open spec fn spec_output_value(p: ProgramModel, read: Seq<usize>, i: int) -> Value {
    let k = p.output_map[i].0;
    let mask = p.output_map[i].1;
    if k == SENTINEL {
        Value::Floating
    } else {
        Value::Driven(read[k as int] & mask)
    }
}

impl State {
    pub closed spec fn model(&self) -> StateModel {
        StateModel {
            program: (*self.program).model(),
            update_dirty: self.update_dirty@,
            mark_dirty: self.mark_dirty@,
            write: self.write@,
            read: self.read@,
        }
    }

    /// Between steps: the program is well formed, both banks span its
    /// memory, and no marks are pending.
    pub closed spec fn wf(&self) -> bool {
        &&& program_wf(self.model().program)
        &&& self.update_dirty.wf()
        &&& self.mark_dirty.wf()
        &&& self.read@.len() == self.model().program.memory_size
        &&& self.write@.len() == self.model().program.memory_size
        &&& self.mark_dirty@ =~= Set::<usize>::empty()
    }

    /// `wf` in terms of the model, for callers' proofs.
    pub proof fn lemma_wf_model(&self)
        requires
            self.wf(),
        ensures
            program_wf(self.model().program),
            self.model().read.len() == self.model().program.memory_size,
            self.model().write.len() == self.model().program.memory_size,
            self.model().mark_dirty =~= Set::<usize>::empty(),
    {
    }

    /// Write the given inputs to memory, masking each to its width and
    /// scheduling the fan-out of every changed input.
    pub fn write_inputs(&mut self, inputs: &Vec<Value>)
        requires
            old(self).wf(),
            forall|i: int|
                0 <= i < inputs@.len() && i < old(self).model().program.input_map.len() && (
                #[trigger] old(self).model().program.input_map[i]).0 != SENTINEL ==> inputs@[i]
                    is Driven,
        ensures
            final(self).wf(),
            final(self).model() == spec_write_inputs(
                old(self).model(),
                inputs@,
                inputs@.len() as int,
            ),
    {
        let ghost m0 = self.model();
        let mut i: usize = 0;
        while i < inputs.len()
            invariant
                i <= inputs@.len(),
                self.wf(),
                m0 == old(self).model(),
                m0.program == self.model().program,
                self.program == old(self).program,
                self.mark_dirty == old(self).mark_dirty,
                forall|j: int|
                    0 <= j < inputs@.len() && j < m0.program.input_map.len() && (
                    #[trigger] m0.program.input_map[j]).0 != SENTINEL ==> inputs@[j] is Driven,
                self.model() == spec_write_inputs(m0, inputs@, i as int),
            decreases inputs@.len() - i,
        {
            let ghost pre = self.model();
            if i < self.program.input_map.len() {
                let (k, mask) = self.program.input_map[i];
                if k != SENTINEL {
                    match inputs[i] {
                        Value::Driven(o) => {
                            let v = o & mask;
                            let was_dirty = self.read[k] & mask != v;
                            self.read[k] = v;
                            self.write[k] = v;
                            if was_dirty {
                                let fanout_len = self.program.input_nodes_map[i].len();
                                let ghost fanout = (*self.program).model().input_nodes_map[i as int];
                                let mut t: usize = 0;
                                while t < fanout_len
                                    invariant
                                        t <= fanout_len,
                                        fanout_len == fanout.len(),
                                        fanout == (*self.program).model().input_nodes_map[i as int],
                                        i < (*self.program).model().input_nodes_map.len(),
                                        self.update_dirty.wf(),
                                        self.update_dirty@ =~= pre.update_dirty.union(
                                            fanout.take(t as int).to_set(),
                                        ),
                                        self.program == old(self).program,
                                        self.read@ == pre.read.update(k as int, v),
                                        self.write@ == pre.write.update(k as int, v),
                                        self.mark_dirty == old(self).mark_dirty,
                                    decreases fanout_len - t,
                                {
                                    let node = self.program.input_nodes_map[i][t];
                                    self.update_dirty.insert(node);
                                    proof {
                                        assert(fanout.take(t + 1).to_set() =~= fanout.take(
                                            t as int,
                                        ).to_set().insert(fanout[t as int])) by {
                                            lemma_take_to_set_step(fanout, t as int);
                                        }
                                    }
                                    t = t + 1;
                                }
                                proof {
                                    assert(fanout.take(fanout.len() as int) =~= fanout);
                                }
                            }
                        },
                        _ => {
                            proof {
                                assert(false);
                            }
                        },
                    }
                }
            }
            proof {
                assert(self.model() == write_input_one(pre, inputs@[i as int], i as int));
                assert(spec_write_inputs(m0, inputs@, i + 1 as int) == write_input_one(
                    spec_write_inputs(m0, inputs@, i as int),
                    inputs@[i as int],
                    i as int,
                ));
            }
            i = i + 1;
        }
    }

    /// Read the outputs from memory. Entries beyond the program's output map
    /// are left untouched.
    pub fn read_outputs(&self, outputs: &mut Vec<Value>)
        requires
            self.wf(),
        ensures
            final(outputs)@.len() == old(outputs)@.len(),
            forall|i: int|
                0 <= i < old(outputs)@.len() ==> final(outputs)@[i] == (if i < self.model().program.output_map.len() {
                    spec_output_value(self.model().program, self.model().read, i)
                } else {
                    old(outputs)@[i]
                }),
    {
        let n = outputs.len();
        let mut i: usize = 0;
        while i < n
            invariant
                i <= n,
                self.wf(),
                n == outputs@.len(),
                forall|j: int|
                    0 <= j < i ==> outputs@[j] == (if j < self.model().program.output_map.len() {
                        spec_output_value(self.model().program, self.model().read, j)
                    } else {
                        old(outputs)@[j]
                    }),
                forall|j: int| i <= j < n ==> outputs@[j] == old(outputs)@[j],
            decreases n - i,
        {
            if i < self.program.output_map.len() {
                let (k, mask) = self.program.output_map[i];
                outputs[i] = if k == SENTINEL {
                    Value::Floating
                } else {
                    Value::Driven(self.read[k] & mask)
                };
            }
            i = i + 1;
        }
    }

    /// Get the value of the given nexus.
    pub fn read_nexus(&self, nexus: NexusHandle) -> (r: Value)
        requires
            self.wf(),
            nexus.0.0 < self.model().program.nexus_map.len(),
            self.model().program.nexus_map[nexus.0.0 as int] != SENTINEL,
        ensures
            r == Value::Driven(
                self.model().read[self.model().program.nexus_map[nexus.0.0 as int] as int],
            ),
    {
        Value::Driven(self.read[self.program.nexus_map[nexus.index()]])
    }

    /// Modify this state to be compatible with a new program whilst losing
    /// as little information as possible: the overlapping prefix of the read
    /// bank is kept, and every node of the new program is scheduled.
    pub fn adapt(self, program: Arc<Program>) -> (r: State)
        requires
            program_wf(program.model()),
        ensures
            r.wf(),
            r.model().program == program.model(),
            r.model().read.len() == program.model().memory_size,
            r.model().write == r.model().read,
            forall|i: int|
                0 <= i < r.model().read.len() ==> r.model().read[i] == (if i
                    < self.model().read.len() {
                    self.model().read[i]
                } else {
                    0usize
                }),
            forall|n: usize|
                (r.model().update_dirty.contains(n) <==> n < program.model().nodes.len()),
    {
        let mut s = program.new_state();
        let ghost fresh = s;
        let m = if self.read.len() < s.read.len() {
            self.read.len()
        } else {
            s.read.len()
        };
        let mut i: usize = 0;
        while i < m
            invariant
                i <= m,
                m <= self.read@.len(),
                m <= s.read@.len(),
                s.read@.len() == fresh.read@.len(),
                forall|j: int| 0 <= j < i ==> s.read@[j] == self.read@[j],
                forall|j: int| i <= j < s.read@.len() ==> s.read@[j] == 0usize,
                s.program == fresh.program,
                s.update_dirty == fresh.update_dirty,
                s.mark_dirty == fresh.mark_dirty,
                s.write == fresh.write,
            decreases m - i,
        {
            s.read[i] = self.read[i];
            i = i + 1;
        }
        let ghost copied_read = s.read@;
        let n = s.write.len();
        let mut j: usize = 0;
        while j < n
            invariant
                j <= n,
                n == s.write@.len(),
                n == s.read@.len(),
                forall|q: int| 0 <= q < j ==> s.write@[q] == s.read@[q],
                s.program == fresh.program,
                s.update_dirty == fresh.update_dirty,
                s.mark_dirty == fresh.mark_dirty,
                s.read@ == copied_read,
            decreases n - j,
        {
            s.write[j] = s.read[j];
            j = j + 1;
        }
        proof {
            assert(s.write@ =~= s.read@);
            assert(s.update_dirty == fresh.update_dirty);
            assert forall|n: usize|
                s.model().update_dirty.contains(n) <==> n
                    < program.model().nodes.len() by {
                assert(fresh.model().update_dirty.contains(n) <==> n
                    < program.model().nodes.len());
            }
        }
        s
    }

    /// Evaluate every node against the current read bank, publish the write
    /// bank, and report how many nodes were marked dirty (zero means the
    /// circuit is quiescent).
    pub fn step(&mut self) -> (r: usize)
        requires
            old(self).wf(),
        ensures
            final(self).wf(),
            final(self).model() == spec_step(old(self).model()),
            final(self).model().read == final(self).model().write,
            r == final(self).model().update_dirty.len(),
    {
        let ghost m0 = self.model();
        self.update_dirty.clear();
        let n_nodes = self.program.nodes.len();
        let ghost node_models = m0.program.nodes;
        proof {
            assert(node_models.skip(0) =~= node_models);
        }
        let mut n: usize = 0;
        while n < n_nodes
            invariant
                n <= n_nodes,
                self.program == old(self).program,
                self.read == old(self).read,
                n_nodes == node_models.len(),
                node_models == m0.program.nodes,
                m0 == old(self).model(),
                m0.program == self.model().program,
                program_wf(m0.program),
                self.update_dirty.wf(),
                self.update_dirty@ =~= Set::<usize>::empty(),
                self.mark_dirty.wf(),
                self.write@.len() == m0.program.memory_size,
                self.read@.len() == m0.program.memory_size,
                run_nodes(node_models, m0.read, m0.write, m0.mark_dirty) == run_nodes(
                    node_models.skip(n as int),
                    m0.read,
                    self.write@,
                    self.mark_dirty@,
                ),
            decreases n_nodes - n,
        {
            proof {
                assert(node_models[n as int] == ops_models(
                    (*self.program).nodes@[n as int].ir@,
                ));
                assert(ops_valid(node_models[n as int], m0.program.memory_size as nat));
                assert(node_models.skip(n as int)[0] == node_models[n as int]);
                assert(node_models.skip(n as int).drop_first() =~= node_models.skip(n + 1));
            }
            run(&self.program.nodes[n].ir, &self.read, &mut self.write, &mut self.mark_dirty);
            n = n + 1;
        }
        proof {
            assert(node_models.skip(n_nodes as int) =~= Seq::<Seq<OpModel>>::empty());
        }
        let ghost ud_mid = self.update_dirty;
        let ghost md_mid = self.mark_dirty;
        let ghost wr_mid = self.write@;
        let bank = self.read.len();
        let mut i: usize = 0;
        while i < bank
            invariant
                i <= bank,
                bank == self.read@.len(),
                bank == self.write@.len(),
                self.program == old(self).program,
                self.update_dirty == ud_mid,
                self.mark_dirty == md_mid,
                self.write@ == wr_mid,
                forall|j: int| 0 <= j < i ==> self.read@[j] == self.write@[j],
            decreases bank - i,
        {
            self.read[i] = self.write[i];
            i = i + 1;
        }
        proof {
            assert(self.read@ =~= self.write@);
        }
        core::mem::swap(&mut self.write, &mut self.read);
        core::mem::swap(&mut self.update_dirty, &mut self.mark_dirty);
        self.update_dirty.len()
    }
}

/// The sequence of states a run passes through: each round writes one
/// batch of inputs and steps once.
pub open spec fn spec_session(s: StateModel, inputs: Seq<Seq<Value>>) -> Seq<StateModel>
    decreases inputs.len(),
{
    if inputs.len() == 0 {
        Seq::empty()
    } else {
        let s1 = spec_step(spec_write_inputs(s, inputs[0], inputs[0].len() as int));
        seq![s1] + spec_session(s1, inputs.drop_first())
    }
}

/// Determinism of steps: for a given program, initial state and input
/// sequence, any two runs pass through identical states, and so produce
/// identical sequences of outputs. `write_inputs`, `step` and
/// `read_outputs` each pin their result to the model functions used here,
/// so two executions from equal states can never diverge.
pub proof fn lemma_step_deterministic(a: StateModel, b: StateModel, inputs: Seq<Seq<Value>>)
    requires
        a == b,
    ensures
        spec_session(a, inputs) == spec_session(b, inputs),
        forall|i: int, o: int|
            0 <= i < inputs.len() ==> #[trigger] spec_output_value(
                spec_session(a, inputs)[i].program,
                spec_session(a, inputs)[i].read,
                o,
            ) == spec_output_value(spec_session(b, inputs)[i].program, spec_session(b, inputs)[i].read, o),
{
}

/// Fan-out duplication: external outputs mapped to the same slot and mask
/// always read back the same value.
pub proof fn lemma_fanout_outputs(p: ProgramModel, read: Seq<usize>, i: int, j: int)
    requires
        0 <= i < p.output_map.len(),
        0 <= j < p.output_map.len(),
        p.output_map[i] == p.output_map[j],
    ensures
        spec_output_value(p, read, i) == spec_output_value(p, read, j),
{
}

/// A node is settled on memory `mem`: running it against equal banks
/// rewrites nothing and marks nothing, whatever marks are already pending.
pub open spec fn node_settled(node: Seq<OpModel>, mem: Seq<usize>) -> bool {
    forall|d: Set<usize>|
        (#[trigger] run_ops(node, mem, RunState { acc: 0, wr: mem, dirty: d })).wr == mem
            && run_ops(node, mem, RunState { acc: 0, wr: mem, dirty: d }).dirty == d
}

proof fn lemma_run_nodes_settled(nodes: Seq<Seq<OpModel>>, mem: Seq<usize>, d: Set<usize>)
    requires
        forall|n: int| 0 <= n < nodes.len() ==> node_settled(#[trigger] nodes[n], mem),
    ensures
        run_nodes(nodes, mem, mem, d) == (mem, d),
    decreases nodes.len(),
{
    if nodes.len() > 0 {
        assert(node_settled(nodes[0], mem));
        assert forall|n: int|
            0 <= n < nodes.drop_first().len() implies node_settled(
            #[trigger] nodes.drop_first()[n],
            mem,
        ) by {
            assert(nodes.drop_first()[n] == nodes[n + 1]);
        }
        lemma_run_nodes_settled(nodes.drop_first(), mem, d);
    }
}

/// Quiescence: once a circuit has settled — both banks hold a memory on
/// which every node's evaluation rewrites nothing — a step with no input
/// change schedules nothing and leaves both banks unchanged; the resulting
/// state is settled again, so every further step also reports an empty
/// dirty set.
pub proof fn lemma_step_quiescent(s: StateModel)
    requires
        s.read == s.write,
        s.mark_dirty == Set::<usize>::empty(),
        forall|n: int|
            0 <= n < s.program.nodes.len() ==> node_settled(
                #[trigger] s.program.nodes[n],
                s.read,
            ),
    ensures
        spec_step(s).read == s.read,
        spec_step(s).write == s.read,
        spec_step(s).update_dirty =~= Set::<usize>::empty(),
        spec_step(spec_step(s)).update_dirty =~= Set::<usize>::empty(),
{
    lemma_run_nodes_settled(s.program.nodes, s.read, s.mark_dirty);
    let s1 = spec_step(s);
    lemma_run_nodes_settled(s1.program.nodes, s1.read, s1.mark_dirty);
}

/// An input `j` that would overwrite `slot` when the inputs are applied.
pub open spec fn writes_slot(p: ProgramModel, inputs: Seq<Value>, j: int, slot: usize) -> bool {
    &&& j < p.input_map.len()
    &&& p.input_map[j].0 == slot
    &&& inputs[j] is Driven
}

proof fn lemma_write_inputs_slot(s: StateModel, inputs: Seq<Value>, n: int, i: int)
    requires
        program_wf(s.program),
        s.read.len() == s.program.memory_size,
        0 <= i < n <= inputs.len(),
        i < s.program.input_map.len(),
        s.program.input_map[i].0 != SENTINEL,
        inputs[i] is Driven,
        forall|j: int| i < j < n ==> !writes_slot(s.program, inputs, j, s.program.input_map[i].0),
    ensures
        spec_write_inputs(s, inputs, n).read[s.program.input_map[i].0 as int]
            == inputs[i]->Driven_0 & s.program.input_map[i].1,
        spec_write_inputs(s, inputs, n).program == s.program,
        spec_write_inputs(s, inputs, n).read.len() == s.read.len(),
    decreases n,
{
    if n == i + 1 {
        lemma_write_inputs_shape(s, inputs, i);
        let sp = spec_write_inputs(s, inputs, i);
        assert(spec_write_inputs(s, inputs, n) == write_input_one(sp, inputs[i], i));
        assert(write_input_one(sp, inputs[i], i).read == sp.read.update(
            s.program.input_map[i].0 as int,
            inputs[i]->Driven_0 & s.program.input_map[i].1,
        ));
    } else {
        lemma_write_inputs_slot(s, inputs, n - 1, i);
        let sp = spec_write_inputs(s, inputs, n - 1);
        assert(spec_write_inputs(s, inputs, n) == write_input_one(sp, inputs[n - 1], n - 1));
        assert(!writes_slot(s.program, inputs, n - 1, s.program.input_map[i].0));
        if n - 1 < s.program.input_map.len() && s.program.input_map[n - 1].0 != SENTINEL
            && inputs[n - 1] is Driven {
            assert(s.program.input_map[n - 1].0 != s.program.input_map[i].0);
        }
    }
}

proof fn lemma_write_inputs_shape(s: StateModel, inputs: Seq<Value>, n: int)
    requires
        program_wf(s.program),
        s.read.len() == s.program.memory_size,
        0 <= n <= inputs.len(),
    ensures
        spec_write_inputs(s, inputs, n).program == s.program,
        spec_write_inputs(s, inputs, n).read.len() == s.read.len(),
    decreases n,
{
    if n > 0 {
        lemma_write_inputs_shape(s, inputs, n - 1);
    }
}

/// Mask discipline: writing inputs and then reading the nexus mapped to
/// input `i`'s slot yields that input's value masked to the input's width,
/// provided no later input drives the same slot. `read_nexus` returns
/// exactly `Driven(read[nexus_map[nexus]])`, so this pins what it returns
/// after `write_inputs`.
pub proof fn lemma_mask_discipline(
    s: StateModel,
    inputs: Seq<Value>,
    i: int,
    nexus_index: int,
)
    requires
        program_wf(s.program),
        s.read.len() == s.program.memory_size,
        0 <= i < inputs.len(),
        i < s.program.input_map.len(),
        s.program.input_map[i].0 != SENTINEL,
        inputs[i] is Driven,
        forall|j: int|
            i < j < inputs.len() ==> !writes_slot(
                s.program,
                inputs,
                j,
                s.program.input_map[i].0,
            ),
        0 <= nexus_index < s.program.nexus_map.len(),
        s.program.nexus_map[nexus_index] == s.program.input_map[i].0,
    ensures
        ({
            let s2 = spec_write_inputs(s, inputs, inputs.len() as int);
            s2.read[s2.program.nexus_map[nexus_index] as int] == inputs[i]->Driven_0
                & s.program.input_map[i].1
        }),
{
    lemma_write_inputs_slot(s, inputs, inputs.len() as int, i);
}

proof fn lemma_take_to_set_step(s: Seq<usize>, t: int)
    requires
        0 <= t < s.len(),
    ensures
        s.take(t + 1).to_set() =~= s.take(t).to_set().insert(s[t]),
{
    let a = s.take(t + 1);
    let b = s.take(t);
    assert forall|x: usize| a.to_set().contains(x) implies b.to_set().insert(s[t]).contains(
        x,
    ) by {
        let k = choose|k: int| 0 <= k < a.len() && a[k] == x;
        if k < t {
            assert(b[k] == x);
            assert(b.contains(x));
        } else {
            assert(x == s[t]);
        }
    }
    assert forall|x: usize| b.to_set().insert(s[t]).contains(x) implies a.to_set().contains(
        x,
    ) by {
        if x == s[t] {
            assert(a[t] == x);
            assert(a.contains(x));
        } else {
            let k = choose|k: int| 0 <= k < b.len() && b[k] == x;
            assert(a[k] == x);
            assert(a.contains(x));
        }
    }
}

} // verus!
