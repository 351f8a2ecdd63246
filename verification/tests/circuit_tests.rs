//! Circuit-level scenarios: auto-connection, nexus merging, compilation
//! and simulation through the public interface.

use logicsim::circuit::{AnyComponent, Circuit, Direction, Point, Wire};
use logicsim::component::{AndGate, In, NonZeroOneU8, NotGate, OrGate, Out, XorGate};
use logicsim::program::Value;
use logicsim::rom::ReadOnlyMemory;

fn step_until_quiescent(state: &mut logicsim::program::State) {
    let mut budget = 64;
    while budget > 0 {
        if state.step() == 0 {
            return;
        }
        budget -= 1;
    }
    panic!("did not converge");
}

/// ```text
/// i0 --+-------v
///      |      AND --> NOT
/// i1 --|--+----^       |
///      |  |            v
///      +--|----v      AND --> o0
///      |  |    OR -----^
///      |  +----^
///      |  |
///      +--|----v
///         |   XOR ----------> o1
///         +----^
/// ```
#[test]
fn circuit_manual_xor() {
    let mut circuit: Circuit<AnyComponent> = Circuit::new();

    let bits = 4;
    let inputs = NonZeroOneU8::new(2).unwrap();
    let i0 = AnyComponent::In(In::new(bits, 0));
    let i1 = AnyComponent::In(In::new(bits, 1));
    let l0 = AnyComponent::And(AndGate::new(inputs, bits));
    let l1 = AnyComponent::Not(NotGate::new(bits));
    let r0 = AnyComponent::Or(OrGate::new(inputs, bits));
    let lr = AnyComponent::And(AndGate::new(inputs, bits));
    let o0 = AnyComponent::Out(Out::new(bits, 0));
    let cp = AnyComponent::Xor(XorGate::new(inputs, bits));
    let o1 = AnyComponent::Out(Out::new(bits, 1));

    // Inputs
    circuit.add_component(i0, Point::new(0, 0), Direction::Right);
    circuit.add_component(i1, Point::new(0, 4), Direction::Right);

    // Connect inputs to AND
    circuit.add_wire(Wire::new(Point::new(0, 0), Point::new(3, 0)));
    circuit.add_wire(Wire::new(Point::new(0, 4), Point::new(3, 2)));
    // Place AND and NOT
    circuit.add_component(l0, Point::new(4, 1), Direction::Right);
    circuit.add_component(l1, Point::new(8, 0), Direction::Right);
    // Connect AND to NOT
    circuit.add_wire(Wire::new(Point::new(5, 1), Point::new(7, 0)));

    // Place OR
    circuit.add_component(r0, Point::new(4, 4), Direction::Right);
    // Connect inputs to OR
    circuit.add_wire(Wire::new(Point::new(0, 0), Point::new(3, 3)));
    circuit.add_wire(Wire::new(Point::new(0, 4), Point::new(3, 5)));

    // Connect AND & OR to AND and connect AND to output
    circuit.add_wire(Wire::new(Point::new(9, 0), Point::new(11, 0)));
    circuit.add_wire(Wire::new(Point::new(5, 4), Point::new(11, 2)));
    circuit.add_wire(Wire::new(Point::new(13, 1), Point::new(16, 0)));
    // Place AND and output
    circuit.add_component(lr, Point::new(12, 1), Direction::Right);
    circuit.add_component(o0, Point::new(16, 0), Direction::Right);

    // Place XOR and output
    circuit.add_component(cp, Point::new(4, 8), Direction::Right);
    circuit.add_component(o1, Point::new(16, 8), Direction::Right);
    // Connect inputs to XOR and XOR to output
    circuit.add_wire(Wire::new(Point::new(0, 0), Point::new(3, 7)));
    circuit.add_wire(Wire::new(Point::new(0, 4), Point::new(3, 9)));
    circuit.add_wire(Wire::new(Point::new(5, 8), Point::new(16, 8)));

    let program = circuit.generate_ir();
    let mut state = program.new_state();

    let (a, b) = (0b1100usize, 0b0110usize);
    state.write_inputs(&vec![Value::Driven(a), Value::Driven(b)]);
    // The dirty count tracks bit-0 changes only, so bound the settling of a
    // multi-bit circuit by its depth instead.
    let mut depth = 8;
    while depth > 0 {
        state.step();
        depth -= 1;
    }

    let mut out = vec![Value::Floating, Value::Floating];
    state.read_outputs(&mut out);
    assert_eq!(out, [Value::Driven(a ^ b), Value::Driven(a ^ b)]);
}

/// Direct inverter: a one-bit input wired through `Not` to an output.
#[test]
fn direct_not() {
    let mut circuit: Circuit<AnyComponent> = Circuit::new();
    circuit.add_component(AnyComponent::In(In::new(1, 0)), Point::new(0, 0), Direction::Right);
    circuit.add_component(AnyComponent::Not(NotGate::new(1)), Point::new(2, 0), Direction::Right);
    circuit.add_component(AnyComponent::Out(Out::new(1, 0)), Point::new(4, 0), Direction::Right);
    circuit.add_wire(Wire::new(Point::new(0, 0), Point::new(1, 0)));
    circuit.add_wire(Wire::new(Point::new(3, 0), Point::new(4, 0)));

    let program = circuit.generate_ir();
    let mut state = program.new_state();

    state.write_inputs(&vec![Value::Driven(1)]);
    step_until_quiescent(&mut state);
    let mut out = vec![Value::Floating];
    state.read_outputs(&mut out);
    assert_eq!(out, [Value::Driven(0)]);

    state.write_inputs(&vec![Value::Driven(0)]);
    step_until_quiescent(&mut state);
    state.read_outputs(&mut out);
    assert_eq!(out, [Value::Driven(1)]);
}

/// Fan-out: one input drives two outputs through a forked wire with a
/// single shared nexus.
#[test]
fn fan_out() {
    let mut circuit: Circuit<AnyComponent> = Circuit::new();
    circuit.add_component(AnyComponent::In(In::new(32, 0)), Point::new(0, 0), Direction::Right);
    circuit.add_component(AnyComponent::Out(Out::new(32, 0)), Point::new(4, 0), Direction::Right);
    circuit.add_component(AnyComponent::Out(Out::new(32, 1)), Point::new(4, 2), Direction::Right);
    circuit.add_wire(Wire::new(Point::new(0, 0), Point::new(2, 0)));
    circuit.add_wire(Wire::new(Point::new(2, 0), Point::new(4, 0)));
    circuit.add_wire(Wire::new(Point::new(2, 0), Point::new(4, 2)));

    // All three wires share one nexus.
    let n0 = circuit.wire_nexus(0).unwrap();
    let n1 = circuit.wire_nexus(1).unwrap();
    let n2 = circuit.wire_nexus(2).unwrap();
    assert_eq!(n0, n1);
    assert_eq!(n1, n2);

    let program = circuit.generate_ir();
    let mut state = program.new_state();
    state.write_inputs(&vec![Value::Driven(42)]);
    step_until_quiescent(&mut state);
    let mut out = vec![Value::Floating, Value::Floating];
    state.read_outputs(&mut out);
    assert_eq!(out, [Value::Driven(42), Value::Driven(42)]);
}

/// Merging nets: two distinct vertical wires are joined by a bridge whose
/// endpoints lie on both.
#[test]
fn merging_nets() {
    let mut circuit: Circuit<AnyComponent> = Circuit::new();
    circuit.add_wire(Wire::new(Point::new(0, 0), Point::new(0, 5)));
    circuit.add_wire(Wire::new(Point::new(5, 0), Point::new(5, 5)));

    let a = circuit.wire_nexus(0).unwrap();
    let b = circuit.wire_nexus(1).unwrap();
    assert_ne!(a, b);
    // Before the merge, each nexus records exactly its own wire.
    assert_eq!(circuit.nexus_wires(a).unwrap(), &vec![0]);
    assert_eq!(circuit.nexus_wires(b).unwrap(), &vec![1]);

    circuit.add_wire(Wire::new(Point::new(0, 5), Point::new(5, 5)));
    let a2 = circuit.wire_nexus(0).unwrap();
    let b2 = circuit.wire_nexus(1).unwrap();
    let c2 = circuit.wire_nexus(2).unwrap();
    assert_eq!(a2, b2);
    assert_eq!(b2, c2);
    // The merged nexus records all three wires, each once.
    let mut record = circuit.nexus_wires(a2).unwrap().clone();
    record.sort();
    assert_eq!(record, vec![0, 1, 2]);
}

/// ROM lookup: the input drives the address, the data output is read back.
/// An address beyond the contents reads zero.
#[test]
fn rom_lookup() {
    let mut circuit: Circuit<AnyComponent> = Circuit::new();
    circuit.add_component(AnyComponent::In(In::new(32, 0)), Point::new(0, 0), Direction::Right);
    circuit.add_component(
        AnyComponent::Rom(ReadOnlyMemory::new(vec![10, 20, 30, 40])),
        Point::new(2, 0),
        Direction::Right,
    );
    circuit.add_component(AnyComponent::Out(Out::new(32, 0)), Point::new(4, 0), Direction::Right);
    circuit.add_wire(Wire::new(Point::new(0, 0), Point::new(1, 0)));
    circuit.add_wire(Wire::new(Point::new(3, 0), Point::new(4, 0)));

    let program = circuit.generate_ir();
    let mut state = program.new_state();

    state.write_inputs(&vec![Value::Driven(2)]);
    step_until_quiescent(&mut state);
    let mut out = vec![Value::Floating];
    state.read_outputs(&mut out);
    assert_eq!(out, [Value::Driven(30)]);

    state.write_inputs(&vec![Value::Driven(99)]);
    step_until_quiescent(&mut state);
    state.read_outputs(&mut out);
    assert_eq!(out, [Value::Driven(0)]);
}

/// Quiescence: once a purely combinational circuit has settled, further
/// steps without input changes report an empty dirty set.
#[test]
fn quiescence() {
    let mut circuit: Circuit<AnyComponent> = Circuit::new();
    circuit.add_component(AnyComponent::In(In::new(1, 0)), Point::new(0, 0), Direction::Right);
    circuit.add_component(AnyComponent::Not(NotGate::new(1)), Point::new(2, 0), Direction::Right);
    circuit.add_component(AnyComponent::Out(Out::new(1, 0)), Point::new(4, 0), Direction::Right);
    circuit.add_wire(Wire::new(Point::new(0, 0), Point::new(1, 0)));
    circuit.add_wire(Wire::new(Point::new(3, 0), Point::new(4, 0)));

    let program = circuit.generate_ir();
    let mut state = program.new_state();
    state.write_inputs(&vec![Value::Driven(1)]);
    step_until_quiescent(&mut state);
    assert_eq!(state.step(), 0);
    assert_eq!(state.step(), 0);
}

/// An unconnected output reads back as floating; an empty circuit compiles
/// to an empty program.
#[test]
fn empty_and_floating() {
    let mut circuit: Circuit<AnyComponent> = Circuit::new();
    let program = circuit.generate_ir();
    assert_eq!(program.memory_size(), 0);
    assert_eq!(program.input_map().len(), 0);
    assert_eq!(program.output_map().len(), 0);
    let mut state = program.new_state();
    assert_eq!(state.step(), 0);

    let mut circuit2: Circuit<AnyComponent> = Circuit::new();
    circuit2.add_component(AnyComponent::Out(Out::new(8, 0)), Point::new(4, 0), Direction::Right);
    let program2 = circuit2.generate_ir();
    let state2 = program2.new_state();
    let mut out = vec![Value::Driven(7)];
    state2.read_outputs(&mut out);
    assert_eq!(out, [Value::Floating]);
}

/// Compiling the same circuit twice yields programs with the same memory
/// size and identical boundary maps.
#[test]
fn compile_twice() {
    let mut circuit: Circuit<AnyComponent> = Circuit::new();
    circuit.add_component(AnyComponent::In(In::new(8, 0)), Point::new(0, 0), Direction::Right);
    circuit.add_component(AnyComponent::Not(NotGate::new(8)), Point::new(2, 0), Direction::Right);
    circuit.add_component(AnyComponent::Out(Out::new(8, 0)), Point::new(4, 0), Direction::Right);
    circuit.add_wire(Wire::new(Point::new(0, 0), Point::new(1, 0)));
    circuit.add_wire(Wire::new(Point::new(3, 0), Point::new(4, 0)));

    let p1 = circuit.generate_ir();
    let p2 = circuit.generate_ir();
    assert_eq!(p1.memory_size(), p2.memory_size());
    assert_eq!(p1.nexus_map(), p2.nexus_map());
    assert_eq!(p1.input_map(), p2.input_map());
    assert_eq!(p1.output_map(), p2.output_map());
}

/// Adapting a state to a program keeps the overlapping read-bank prefix:
/// outputs read the same before and after.
#[test]
fn adapt_preserves_outputs() {
    let mut circuit: Circuit<AnyComponent> = Circuit::new();
    circuit.add_component(AnyComponent::In(In::new(8, 0)), Point::new(0, 0), Direction::Right);
    circuit.add_component(AnyComponent::Out(Out::new(8, 0)), Point::new(2, 0), Direction::Right);
    circuit.add_wire(Wire::new(Point::new(0, 0), Point::new(2, 0)));

    let program = circuit.generate_ir();
    let mut state = program.clone().new_state();
    state.write_inputs(&vec![Value::Driven(123)]);
    step_until_quiescent(&mut state);
    let mut before = vec![Value::Floating];
    state.read_outputs(&mut before);

    let adapted = state.adapt(program);
    let mut after = vec![Value::Floating];
    adapted.read_outputs(&mut after);
    assert_eq!(before, after);
    assert_eq!(after, [Value::Driven(123)]);
}

/// Mask discipline: a written input is masked to its declared width before
/// it lands in the nexus slot.
#[test]
fn write_inputs_masks() {
    let mut circuit: Circuit<AnyComponent> = Circuit::new();
    circuit.add_component(AnyComponent::In(In::new(4, 0)), Point::new(0, 0), Direction::Right);
    circuit.add_component(AnyComponent::Out(Out::new(4, 0)), Point::new(2, 0), Direction::Right);
    circuit.add_wire(Wire::new(Point::new(0, 0), Point::new(2, 0)));
    let nexus = circuit.wire_nexus(0).unwrap();

    let program = circuit.generate_ir();
    let mut state = program.new_state();
    state.write_inputs(&vec![Value::Driven(0xABCD)]);
    assert_eq!(state.read_nexus(nexus), Value::Driven(0xABCD & 0xF));
}
