//! A component representing read-only memory.

use vstd::prelude::*;

use crate::SENTINEL;
use crate::component::{Component, InputType, OutputType};
use crate::program::{IrOp, OpModel, op_model, ops_models, rom_table_new};

verus! {

/// Read-only memory: one 32-bit address input, one 32-bit data output.
/// Reading an address beyond the contents yields zero.
pub struct ReadOnlyMemory {
    contents: Vec<usize>,
}

impl View for ReadOnlyMemory {
    type V = Seq<usize>;

    closed spec fn view(&self) -> Seq<usize> {
        self.contents@
    }
}

impl ReadOnlyMemory {
    pub fn new(contents: Vec<usize>) -> (r: ReadOnlyMemory)
        ensures
            r@ == contents@,
    {
        ReadOnlyMemory { contents }
    }

    /// The stored contents.
    pub fn contents(&self) -> (r: &Vec<usize>)
        ensures
            r@ == self@,
    {
        &self.contents
    }

    pub fn get(&self, index: usize) -> (r: Option<usize>)
        ensures
            r == (if index < self@.len() {
                Some(self@[index as int])
            } else {
                None::<usize>
            }),
    {
        if index < self.contents.len() {
            Some(self.contents[index])
        } else {
            None
        }
    }
}

impl Default for ReadOnlyMemory {
    fn default() -> (r: Self)
        ensures
            r@ =~= Seq::<usize>::empty(),
    {
        ReadOnlyMemory { contents: Vec::new() }
    }
}

/// The instruction sequence of a ROM: copy the address, look it up in the
/// shared table, save the data. Nothing is emitted when either port is
/// unconnected.
pub open spec fn rom_ops(contents: Seq<usize>, inputs: Seq<usize>, outputs: Seq<usize>) -> Seq<
    OpModel,
> {
    if inputs.len() == 0 || outputs.len() == 0 || inputs[0] == SENTINEL || outputs[0]
        == SENTINEL {
        Seq::empty()
    } else {
        seq![
            OpModel::Copy { a: inputs[0] },
            OpModel::Read { table: contents },
            OpModel::Save { out: outputs[0] },
        ]
    }
}

impl Component for ReadOnlyMemory {
    open spec fn spec_input_count(&self) -> usize {
        1
    }

    open spec fn spec_output_count(&self) -> usize {
        1
    }

    open spec fn spec_input_type(&self, input: usize) -> Option<InputType> {
        if input < 1 {
            Some(InputType { bits: 32 })
        } else {
            None
        }
    }

    open spec fn spec_output_type(&self, output: usize) -> Option<OutputType> {
        if output < 1 {
            Some(OutputType { bits: 32 })
        } else {
            None
        }
    }

    open spec fn spec_ir(&self, inputs: Seq<usize>, outputs: Seq<usize>) -> Seq<OpModel> {
        rom_ops(self@, inputs, outputs)
    }

    open spec fn spec_extra_memory(&self) -> usize {
        0
    }

    open spec fn spec_external_input(&self) -> Option<usize> {
        None
    }

    open spec fn spec_external_output(&self) -> Option<usize> {
        None
    }

    proof fn lemma_type_counts(&self) {
    }

    proof fn lemma_ir_valid(&self, inputs: Seq<usize>, outputs: Seq<usize>, len: nat) {
    }

    fn input_count(&self) -> usize {
        1
    }

    fn input_type(&self, input: usize) -> Option<InputType> {
        if input < 1 {
            Some(InputType { bits: 32 })
        } else {
            None
        }
    }

    fn output_count(&self) -> usize {
        1
    }

    fn output_type(&self, output: usize) -> Option<OutputType> {
        if output < 1 {
            Some(OutputType { bits: 32 })
        } else {
            None
        }
    }

    fn generate_ir(
        &self,
        inputs: &Vec<usize>,
        outputs: &Vec<usize>,
        out: &mut Vec<IrOp>,
        _memory_size: usize,
    ) -> usize {
        let address = inputs[0];
        let data = outputs[0];
        if address != SENTINEL && data != SENTINEL {
            let memory = rom_table_new(&self.contents);
            out.push(IrOp::Copy { a: address });
            out.push(IrOp::Read { memory });
            out.push(IrOp::Save { out: data });
            proof {
                assert(ops_models(out@) =~= ops_models(old(out)@) + rom_ops(
                    self@,
                    inputs@,
                    outputs@,
                ));
            }
        } else {
            proof {
                assert(ops_models(out@) =~= ops_models(old(out)@) + rom_ops(
                    self@,
                    inputs@,
                    outputs@,
                ));
            }
        }
        0
    }

    fn external_input(&self) -> Option<usize> {
        None
    }

    fn external_output(&self) -> Option<usize> {
        None
    }
}

} // verus!
