//! Primitive component kinds: gates, external inputs and outputs.
//!
//! Each kind knows its port shape, bit widths and how to emit instructions
//! for the single-accumulator stream.

use vstd::prelude::*;

use crate::SENTINEL;
use crate::program::{IrOp, OpModel, op_model, ops_models, ops_valid, op_valid};

verus! {

/// The type of an input: how many bits it carries.
#[derive(Clone, Copy, Debug, PartialEq, Eq, Structural)]
pub struct InputType {
    pub bits: u8,
}

/// The type of an output: how many bits it carries.
#[derive(Clone, Copy, Debug, PartialEq, Eq, Structural)]
pub struct OutputType {
    pub bits: u8,
}

/// A u8 that is at least 2; the input count of a folding gate.
#[derive(Clone, Copy, Debug)]
pub struct NonZeroOneU8 {
    n: u8,
}

impl NonZeroOneU8 {
    #[verifier::type_invariant]
    spec fn type_inv(self) -> bool {
        self.n >= 2
    }

    pub closed spec fn spec_get(self) -> u8 {
        self.n
    }

    pub fn new(n: u8) -> (r: Option<NonZeroOneU8>)
        ensures
            match r {
                Some(v) => n >= 2 && v.spec_get() == n,
                None => n < 2,
            },
    {
        if n >= 2 {
            Some(NonZeroOneU8 { n })
        } else {
            None
        }
    }

    pub fn get(&self) -> (r: u8)
        ensures
            r == self.spec_get(),
            r >= 2,
    {
        proof {
            use_type_invariant(self);
        }
        self.n
    }
}

/// Mask with the low `bits` bits set (saturating at the word width).
pub open spec fn spec_mask_of(bits: u8) -> usize {
    if bits == 0 {
        0
    } else if (bits as u32) >= usize::BITS {
        usize::MAX
    } else {
        usize::MAX >> ((usize::BITS - (bits as u32)) as usize)
    }
}

pub fn mask_of(bits: u8) -> (r: usize)
    ensures
        r == spec_mask_of(bits),
{
    if bits == 0 {
        0
    } else if (bits as u32) >= usize::BITS {
        usize::MAX
    } else {
        usize::MAX >> ((usize::BITS - (bits as u32)) as usize)
    }
}

/// A single component with zero or more inputs and outputs.
///
/// The spec members give the mathematical image of the component: its port
/// shape and the exact instruction sequence it emits for given slots.
pub trait Component: Sized {
    spec fn spec_input_count(&self) -> usize;

    spec fn spec_output_count(&self) -> usize;

    spec fn spec_input_type(&self, input: usize) -> Option<InputType>;

    spec fn spec_output_type(&self, output: usize) -> Option<OutputType>;

    /// The instruction sequence emitted for the given input and output slots.
    spec fn spec_ir(&self, inputs: Seq<usize>, outputs: Seq<usize>) -> Seq<OpModel>;

    /// Extra memory slots this component reserves beyond its nexuses.
    spec fn spec_extra_memory(&self) -> usize;

    /// The external input index, for `In` components.
    spec fn spec_external_input(&self) -> Option<usize>;

    /// The external output index, for `Out` components.
    spec fn spec_external_output(&self) -> Option<usize>;

    /// A port type exists exactly for port indices below the port count.
    proof fn lemma_type_counts(&self)
        ensures
            forall|i: usize|
                #[trigger] self.spec_input_type(i) is Some <==> i < self.spec_input_count(),
            forall|o: usize|
                #[trigger] self.spec_output_type(o) is Some <==> o < self.spec_output_count(),
    ;

    /// Emitted instructions only name the slots they were handed.
    proof fn lemma_ir_valid(&self, inputs: Seq<usize>, outputs: Seq<usize>, len: nat)
        requires
            forall|k: int|
                0 <= k < inputs.len() ==> inputs[k] == SENTINEL || #[trigger] inputs[k] < len,
            forall|k: int|
                0 <= k < outputs.len() ==> outputs[k] == SENTINEL || #[trigger] outputs[k] < len,
        ensures
            ops_valid(self.spec_ir(inputs, outputs), len),
    ;

    /// The amount of inputs.
    fn input_count(&self) -> (r: usize)
        ensures
            r == self.spec_input_count(),
    ;

    /// The type of a given input.
    fn input_type(&self, input: usize) -> (r: Option<InputType>)
        ensures
            r == self.spec_input_type(input),
    ;

    /// The amount of outputs.
    fn output_count(&self) -> (r: usize)
        ensures
            r == self.spec_output_count(),
    ;

    /// The type of a given output.
    fn output_type(&self, output: usize) -> (r: Option<OutputType>)
        ensures
            r == self.spec_output_type(output),
    ;

    /// Append this component's instructions for the given slots to `out`.
    /// Returns the amount of extra memory the component reserves;
    /// `memory_size` is the running memory cursor where that extra memory
    /// would start.
    fn generate_ir(
        &self,
        inputs: &Vec<usize>,
        outputs: &Vec<usize>,
        out: &mut Vec<IrOp>,
        memory_size: usize,
    ) -> (r: usize)
        requires
            inputs@.len() == self.spec_input_count(),
            outputs@.len() == self.spec_output_count(),
        ensures
            ops_models(final(out)@) == ops_models(old(out)@) + self.spec_ir(inputs@, outputs@),
            r == self.spec_extra_memory(),
    ;

    /// The external input index this component reads, if any.
    fn external_input(&self) -> (r: Option<usize>)
        ensures
            r == self.spec_external_input(),
    ;

    /// The external output index this component drives, if any.
    fn external_output(&self) -> (r: Option<usize>)
        ensures
            r == self.spec_external_output(),
    ;
}

/// The folding operation of a multi-input gate.
#[derive(Clone, Copy, Debug, PartialEq, Eq, Structural)]
pub enum GateKind {
    And,
    Or,
    Xor,
}

pub open spec fn gate_op(kind: GateKind, a: usize) -> OpModel {
    match kind {
        GateKind::And => OpModel::And { a },
        GateKind::Or => OpModel::Or { a },
        GateKind::Xor => OpModel::Xor { a },
    }
}

/// Fold across the inputs: copy the first, combine the rest, save the result.
pub open spec fn gate_ops(kind: GateKind, inputs: Seq<usize>, outputs: Seq<usize>) -> Seq<
    OpModel,
> {
    if inputs.len() == 0 || outputs.len() == 0 {
        Seq::empty()
    } else {
        seq![OpModel::Copy { a: inputs[0] }] + Seq::new(
            (inputs.len() - 1) as nat,
            |j: int| gate_op(kind, inputs[j + 1]),
        ) + seq![OpModel::Save { out: outputs[0] }]
    }
}

pub proof fn lemma_ops_models_push(s: Seq<IrOp>, op: IrOp)
    ensures
        ops_models(s.push(op)) =~= ops_models(s).push(op_model(op)),
{
}

/// Shared emission for the three folding gates.
fn emit_gate(kind: GateKind, inputs: &Vec<usize>, outputs: &Vec<usize>, out: &mut Vec<IrOp>)
    requires
        inputs@.len() >= 1,
        outputs@.len() >= 1,
    ensures
        ops_models(final(out)@) == ops_models(old(out)@) + gate_ops(kind, inputs@, outputs@),
{
    out.push(IrOp::Copy { a: inputs[0] });
    proof {
        lemma_ops_models_push(old(out)@, IrOp::Copy { a: inputs@[0] });
    }
    let ghost after_copy = out@;
    let mut j: usize = 1;
    while j < inputs.len()
        invariant
            1 <= j <= inputs@.len(),
            ops_models(out@) =~= ops_models(after_copy) + Seq::new(
                (j - 1) as nat,
                |t: int| gate_op(kind, inputs@[t + 1]),
            ),
        decreases inputs@.len() - j,
    {
        let op = match kind {
            GateKind::And => IrOp::And { a: inputs[j] },
            GateKind::Or => IrOp::Or { a: inputs[j] },
            GateKind::Xor => IrOp::Xor { a: inputs[j] },
        };
        proof {
            lemma_ops_models_push(out@, op);
        }
        out.push(op);
        proof {
            assert(ops_models(out@) =~= ops_models(after_copy) + Seq::new(
                ((j + 1) - 1) as nat,
                |t: int| gate_op(kind, inputs@[t + 1]),
            ));
        }
        j = j + 1;
    }
    proof {
        lemma_ops_models_push(out@, IrOp::Save { out: outputs@[0] });
    }
    out.push(IrOp::Save { out: outputs[0] });
    proof {
        assert(ops_models(out@) =~= ops_models(old(out)@) + gate_ops(kind, inputs@, outputs@));
    }
}

proof fn lemma_gate_ops_valid(kind: GateKind, inputs: Seq<usize>, outputs: Seq<usize>, len: nat)
    requires
        forall|k: int|
            0 <= k < inputs.len() ==> inputs[k] == SENTINEL || #[trigger] inputs[k] < len,
        forall|k: int|
            0 <= k < outputs.len() ==> outputs[k] == SENTINEL || #[trigger] outputs[k] < len,
    ensures
        ops_valid(gate_ops(kind, inputs, outputs), len),
{
    let ops = gate_ops(kind, inputs, outputs);
    assert forall|k: int| 0 <= k < ops.len() implies op_valid(#[trigger] ops[k], len) by {
        if inputs.len() > 0 && outputs.len() > 0 {
            if k == 0 {
                assert(inputs[0] == SENTINEL || inputs[0] < len);
            } else if k < ops.len() - 1 {
                assert(ops[k] == gate_op(kind, inputs[k]));
                assert(inputs[k] == SENTINEL || inputs[k] < len);
            } else {
                assert(ops[k] == OpModel::Save { out: outputs[0] });
            }
        }
    }
}

/// A gate folding its operation across `inputs` inputs of `bits` bits each.
pub struct AndGate {
    inputs: NonZeroOneU8,
    bits: u8,
}

/// See [`AndGate`].
pub struct OrGate {
    inputs: NonZeroOneU8,
    bits: u8,
}

/// See [`AndGate`].
pub struct XorGate {
    inputs: NonZeroOneU8,
    bits: u8,
}

/// An inverter: one input, one output, `Xori` with the all-ones mask.
pub struct NotGate {
    bits: u8,
}

/// An external input with a fixed index.
pub struct In {
    pub bits: u8,
    pub index: usize,
}

/// An external output with a fixed index.
pub struct Out {
    pub bits: u8,
    pub index: usize,
}

impl AndGate {
    pub closed spec fn spec_inputs_count(self) -> u8 {
        self.inputs.spec_get()
    }

    pub closed spec fn spec_bits(self) -> u8 {
        self.bits
    }

    /// The width of each input and of the output.
    pub fn bits(&self) -> (r: u8)
        ensures
            r == self.spec_bits(),
    {
        self.bits
    }

    pub fn new(inputs: NonZeroOneU8, bits: u8) -> (r: Self)
        requires
            bits >= 1,
        ensures
            r.spec_inputs_count() == inputs.spec_get(),
            r.spec_bits() == bits,
    {
        Self { inputs, bits }
    }
}

impl OrGate {
    pub closed spec fn spec_inputs_count(self) -> u8 {
        self.inputs.spec_get()
    }

    pub closed spec fn spec_bits(self) -> u8 {
        self.bits
    }

    /// The width of each input and of the output.
    pub fn bits(&self) -> (r: u8)
        ensures
            r == self.spec_bits(),
    {
        self.bits
    }

    pub fn new(inputs: NonZeroOneU8, bits: u8) -> (r: Self)
        requires
            bits >= 1,
        ensures
            r.spec_inputs_count() == inputs.spec_get(),
            r.spec_bits() == bits,
    {
        Self { inputs, bits }
    }
}

impl XorGate {
    pub closed spec fn spec_inputs_count(self) -> u8 {
        self.inputs.spec_get()
    }

    pub closed spec fn spec_bits(self) -> u8 {
        self.bits
    }

    /// The width of each input and of the output.
    pub fn bits(&self) -> (r: u8)
        ensures
            r == self.spec_bits(),
    {
        self.bits
    }

    pub fn new(inputs: NonZeroOneU8, bits: u8) -> (r: Self)
        requires
            bits >= 1,
        ensures
            r.spec_inputs_count() == inputs.spec_get(),
            r.spec_bits() == bits,
    {
        Self { inputs, bits }
    }
}

impl NotGate {
    pub closed spec fn spec_bits(self) -> u8 {
        self.bits
    }

    /// The width of the input and of the output.
    pub fn bits(&self) -> (r: u8)
        ensures
            r == self.spec_bits(),
    {
        self.bits
    }

    pub fn new(bits: u8) -> (r: Self)
        requires
            bits >= 1,
        ensures
            r.spec_bits() == bits,
    {
        Self { bits }
    }
}

impl In {
    pub closed spec fn spec_bits(self) -> u8 {
        self.bits
    }

    pub fn new(bits: u8, index: usize) -> (r: Self)
        requires
            bits >= 1,
        ensures
            r.spec_bits() == bits,
            r.index == index,
    {
        Self { bits, index }
    }
}

impl Out {
    pub closed spec fn spec_bits(self) -> u8 {
        self.bits
    }

    pub fn new(bits: u8, index: usize) -> (r: Self)
        requires
            bits >= 1,
        ensures
            r.spec_bits() == bits,
            r.index == index,
    {
        Self { bits, index }
    }
}

impl Component for AndGate {
    open spec fn spec_input_count(&self) -> usize {
        self.spec_inputs_count() as usize
    }

    open spec fn spec_output_count(&self) -> usize {
        1
    }

    open spec fn spec_input_type(&self, input: usize) -> Option<InputType> {
        if input < self.spec_input_count() {
            Some(InputType { bits: self.spec_bits() })
        } else {
            None
        }
    }

    open spec fn spec_output_type(&self, output: usize) -> Option<OutputType> {
        if output < 1 {
            Some(OutputType { bits: self.spec_bits() })
        } else {
            None
        }
    }

    open spec fn spec_ir(&self, inputs: Seq<usize>, outputs: Seq<usize>) -> Seq<OpModel> {
        gate_ops(GateKind::And, inputs, outputs)
    }

    open spec fn spec_extra_memory(&self) -> usize {
        0
    }

    open spec fn spec_external_input(&self) -> Option<usize> {
        None
    }

    open spec fn spec_external_output(&self) -> Option<usize> {
        None
    }

    proof fn lemma_type_counts(&self) {
    }

    proof fn lemma_ir_valid(&self, inputs: Seq<usize>, outputs: Seq<usize>, len: nat) {
        lemma_gate_ops_valid(GateKind::And, inputs, outputs, len);
    }

    fn input_count(&self) -> usize {
        self.inputs.get() as usize
    }

    fn input_type(&self, input: usize) -> Option<InputType> {
        if input < self.input_count() {
            Some(InputType { bits: self.bits })
        } else {
            None
        }
    }

    fn output_count(&self) -> usize {
        1
    }

    fn output_type(&self, output: usize) -> Option<OutputType> {
        if output < 1 {
            Some(OutputType { bits: self.bits })
        } else {
            None
        }
    }

    fn generate_ir(
        &self,
        inputs: &Vec<usize>,
        outputs: &Vec<usize>,
        out: &mut Vec<IrOp>,
        _memory_size: usize,
    ) -> usize {
        proof {
            use_type_invariant(&self.inputs);
        }
        emit_gate(GateKind::And, inputs, outputs, out);
        0
    }

    fn external_input(&self) -> Option<usize> {
        None
    }

    fn external_output(&self) -> Option<usize> {
        None
    }
}

impl Component for OrGate {
    open spec fn spec_input_count(&self) -> usize {
        self.spec_inputs_count() as usize
    }

    open spec fn spec_output_count(&self) -> usize {
        1
    }

    open spec fn spec_input_type(&self, input: usize) -> Option<InputType> {
        if input < self.spec_input_count() {
            Some(InputType { bits: self.spec_bits() })
        } else {
            None
        }
    }

    open spec fn spec_output_type(&self, output: usize) -> Option<OutputType> {
        if output < 1 {
            Some(OutputType { bits: self.spec_bits() })
        } else {
            None
        }
    }

    open spec fn spec_ir(&self, inputs: Seq<usize>, outputs: Seq<usize>) -> Seq<OpModel> {
        gate_ops(GateKind::Or, inputs, outputs)
    }

    open spec fn spec_extra_memory(&self) -> usize {
        0
    }

    open spec fn spec_external_input(&self) -> Option<usize> {
        None
    }

    open spec fn spec_external_output(&self) -> Option<usize> {
        None
    }

    proof fn lemma_type_counts(&self) {
    }

    proof fn lemma_ir_valid(&self, inputs: Seq<usize>, outputs: Seq<usize>, len: nat) {
        lemma_gate_ops_valid(GateKind::Or, inputs, outputs, len);
    }

    fn input_count(&self) -> usize {
        self.inputs.get() as usize
    }

    fn input_type(&self, input: usize) -> Option<InputType> {
        if input < self.input_count() {
            Some(InputType { bits: self.bits })
        } else {
            None
        }
    }

    fn output_count(&self) -> usize {
        1
    }

    fn output_type(&self, output: usize) -> Option<OutputType> {
        if output < 1 {
            Some(OutputType { bits: self.bits })
        } else {
            None
        }
    }

    fn generate_ir(
        &self,
        inputs: &Vec<usize>,
        outputs: &Vec<usize>,
        out: &mut Vec<IrOp>,
        _memory_size: usize,
    ) -> usize {
        proof {
            use_type_invariant(&self.inputs);
        }
        emit_gate(GateKind::Or, inputs, outputs, out);
        0
    }

    fn external_input(&self) -> Option<usize> {
        None
    }

    fn external_output(&self) -> Option<usize> {
        None
    }
}

impl Component for XorGate {
    open spec fn spec_input_count(&self) -> usize {
        self.spec_inputs_count() as usize
    }

    open spec fn spec_output_count(&self) -> usize {
        1
    }

    open spec fn spec_input_type(&self, input: usize) -> Option<InputType> {
        if input < self.spec_input_count() {
            Some(InputType { bits: self.spec_bits() })
        } else {
            None
        }
    }

    open spec fn spec_output_type(&self, output: usize) -> Option<OutputType> {
        if output < 1 {
            Some(OutputType { bits: self.spec_bits() })
        } else {
            None
        }
    }

    open spec fn spec_ir(&self, inputs: Seq<usize>, outputs: Seq<usize>) -> Seq<OpModel> {
        gate_ops(GateKind::Xor, inputs, outputs)
    }

    open spec fn spec_extra_memory(&self) -> usize {
        0
    }

    open spec fn spec_external_input(&self) -> Option<usize> {
        None
    }

    open spec fn spec_external_output(&self) -> Option<usize> {
        None
    }

    proof fn lemma_type_counts(&self) {
    }

    proof fn lemma_ir_valid(&self, inputs: Seq<usize>, outputs: Seq<usize>, len: nat) {
        lemma_gate_ops_valid(GateKind::Xor, inputs, outputs, len);
    }

    fn input_count(&self) -> usize {
        self.inputs.get() as usize
    }

    fn input_type(&self, input: usize) -> Option<InputType> {
        if input < self.input_count() {
            Some(InputType { bits: self.bits })
        } else {
            None
        }
    }

    fn output_count(&self) -> usize {
        1
    }

    fn output_type(&self, output: usize) -> Option<OutputType> {
        if output < 1 {
            Some(OutputType { bits: self.bits })
        } else {
            None
        }
    }

    fn generate_ir(
        &self,
        inputs: &Vec<usize>,
        outputs: &Vec<usize>,
        out: &mut Vec<IrOp>,
        _memory_size: usize,
    ) -> usize {
        proof {
            use_type_invariant(&self.inputs);
        }
        emit_gate(GateKind::Xor, inputs, outputs, out);
        0
    }

    fn external_input(&self) -> Option<usize> {
        None
    }

    fn external_output(&self) -> Option<usize> {
        None
    }
}

/// The instruction sequence of a [`NotGate`]: copy, invert, save.
pub open spec fn not_ops(inputs: Seq<usize>, outputs: Seq<usize>) -> Seq<OpModel> {
    if inputs.len() == 0 || outputs.len() == 0 {
        Seq::empty()
    } else {
        seq![
            OpModel::Copy { a: inputs[0] },
            OpModel::Xori { i: usize::MAX },
            OpModel::Save { out: outputs[0] },
        ]
    }
}

impl Component for NotGate {
    open spec fn spec_input_count(&self) -> usize {
        1
    }

    open spec fn spec_output_count(&self) -> usize {
        1
    }

    open spec fn spec_input_type(&self, input: usize) -> Option<InputType> {
        if input < 1 {
            Some(InputType { bits: self.spec_bits() })
        } else {
            None
        }
    }

    open spec fn spec_output_type(&self, output: usize) -> Option<OutputType> {
        if output < 1 {
            Some(OutputType { bits: self.spec_bits() })
        } else {
            None
        }
    }

    open spec fn spec_ir(&self, inputs: Seq<usize>, outputs: Seq<usize>) -> Seq<OpModel> {
        not_ops(inputs, outputs)
    }

    open spec fn spec_extra_memory(&self) -> usize {
        0
    }

    open spec fn spec_external_input(&self) -> Option<usize> {
        None
    }

    open spec fn spec_external_output(&self) -> Option<usize> {
        None
    }

    proof fn lemma_type_counts(&self) {
    }

    proof fn lemma_ir_valid(&self, inputs: Seq<usize>, outputs: Seq<usize>, len: nat) {
    }

    fn input_count(&self) -> usize {
        1
    }

    fn input_type(&self, input: usize) -> Option<InputType> {
        if input < 1 {
            Some(InputType { bits: self.bits })
        } else {
            None
        }
    }

    fn output_count(&self) -> usize {
        1
    }

    fn output_type(&self, output: usize) -> Option<OutputType> {
        if output < 1 {
            Some(OutputType { bits: self.bits })
        } else {
            None
        }
    }

    fn generate_ir(
        &self,
        inputs: &Vec<usize>,
        outputs: &Vec<usize>,
        out: &mut Vec<IrOp>,
        _memory_size: usize,
    ) -> usize {
        proof {
            lemma_ops_models_push(out@, IrOp::Copy { a: inputs@[0] });
        }
        out.push(IrOp::Copy { a: inputs[0] });
        proof {
            lemma_ops_models_push(out@, IrOp::Xori { i: usize::MAX });
        }
        out.push(IrOp::Xori { i: usize::MAX });
        proof {
            lemma_ops_models_push(out@, IrOp::Save { out: outputs@[0] });
        }
        out.push(IrOp::Save { out: outputs[0] });
        proof {
            assert(ops_models(out@) =~= ops_models(old(out)@) + not_ops(inputs@, outputs@));
        }
        0
    }

    fn external_input(&self) -> Option<usize> {
        None
    }

    fn external_output(&self) -> Option<usize> {
        None
    }
}

impl Component for In {
    open spec fn spec_input_count(&self) -> usize {
        0
    }

    open spec fn spec_output_count(&self) -> usize {
        1
    }

    open spec fn spec_input_type(&self, input: usize) -> Option<InputType> {
        None
    }

    open spec fn spec_output_type(&self, output: usize) -> Option<OutputType> {
        if output < 1 {
            Some(OutputType { bits: self.spec_bits() })
        } else {
            None
        }
    }

    open spec fn spec_ir(&self, inputs: Seq<usize>, outputs: Seq<usize>) -> Seq<OpModel> {
        Seq::empty()
    }

    open spec fn spec_extra_memory(&self) -> usize {
        0
    }

    open spec fn spec_external_input(&self) -> Option<usize> {
        Some(self.index)
    }

    open spec fn spec_external_output(&self) -> Option<usize> {
        None
    }

    proof fn lemma_type_counts(&self) {
    }

    proof fn lemma_ir_valid(&self, inputs: Seq<usize>, outputs: Seq<usize>, len: nat) {
    }

    fn input_count(&self) -> usize {
        0
    }

    fn input_type(&self, _input: usize) -> Option<InputType> {
        None
    }

    fn output_count(&self) -> usize {
        1
    }

    fn output_type(&self, output: usize) -> Option<OutputType> {
        if output < 1 {
            Some(OutputType { bits: self.bits })
        } else {
            None
        }
    }

    fn generate_ir(
        &self,
        _inputs: &Vec<usize>,
        _outputs: &Vec<usize>,
        out: &mut Vec<IrOp>,
        _memory_size: usize,
    ) -> usize {
        proof {
            assert(ops_models(out@) =~= ops_models(old(out)@) + Seq::<OpModel>::empty());
        }
        0
    }

    fn external_input(&self) -> Option<usize> {
        Some(self.index)
    }

    fn external_output(&self) -> Option<usize> {
        None
    }
}

impl Component for Out {
    open spec fn spec_input_count(&self) -> usize {
        1
    }

    open spec fn spec_output_count(&self) -> usize {
        0
    }

    open spec fn spec_input_type(&self, input: usize) -> Option<InputType> {
        if input < 1 {
            Some(InputType { bits: self.spec_bits() })
        } else {
            None
        }
    }

    open spec fn spec_output_type(&self, output: usize) -> Option<OutputType> {
        None
    }

    open spec fn spec_ir(&self, inputs: Seq<usize>, outputs: Seq<usize>) -> Seq<OpModel> {
        Seq::empty()
    }

    open spec fn spec_extra_memory(&self) -> usize {
        0
    }

    open spec fn spec_external_input(&self) -> Option<usize> {
        None
    }

    open spec fn spec_external_output(&self) -> Option<usize> {
        Some(self.index)
    }

    proof fn lemma_type_counts(&self) {
    }

    proof fn lemma_ir_valid(&self, inputs: Seq<usize>, outputs: Seq<usize>, len: nat) {
    }

    fn input_count(&self) -> usize {
        1
    }

    fn input_type(&self, input: usize) -> Option<InputType> {
        if input < 1 {
            Some(InputType { bits: self.bits })
        } else {
            None
        }
    }

    fn output_count(&self) -> usize {
        0
    }

    fn output_type(&self, _output: usize) -> Option<OutputType> {
        None
    }

    fn generate_ir(
        &self,
        _inputs: &Vec<usize>,
        _outputs: &Vec<usize>,
        out: &mut Vec<IrOp>,
        _memory_size: usize,
    ) -> usize {
        proof {
            assert(ops_models(out@) =~= ops_models(old(out)@) + Seq::<OpModel>::empty());
        }
        0
    }

    fn external_input(&self) -> Option<usize> {
        None
    }

    fn external_output(&self) -> Option<usize> {
        Some(self.index)
    }
}

} // verus!
