//! Component-level and interpreter-level tests: instruction emission, the
//! single-accumulator executor, arenas, dirty sets and the log.

use logicsim::arena::{Arena, Handle};
use logicsim::component::{
    AndGate, Component, In, NonZeroOneU8, NotGate, OrGate, Out, XorGate, mask_of,
};
use logicsim::graph::{Graph, GraphError, GraphNodeHandle, NexusHandle, Port};
use logicsim::integer_set::IntegerSet;
use logicsim::log::{Log, Tag};
use logicsim::program::{IrOp, run};
use logicsim::rom::ReadOnlyMemory;
use logicsim::script::TestError;
use logicsim::circuit::AnyComponent;

fn run_node(ops: &Vec<IrOp>, mem: &mut Vec<usize>) {
    let rd = mem.clone();
    let mut dirty = IntegerSet::new();
    run(ops, &rd, mem, &mut dirty);
}

/// ```text
/// i0 --+-------v
///      |      AND --> NOT
/// i1 --|--+----^       |
///      |  |            v
///      +--|----v      AND --> o0
///      |  |    OR -----^
///      |  +----^
///      |  |
///      +--|----v
///         |   XOR ----------> o1
///         +----^
/// ```
#[test]
fn mod_manual_xor() {
    let two = NonZeroOneU8::new(2).unwrap();
    let (a, b) = (0b1100usize, 0b0110usize);
    let mut mem = vec![a, b, 0, 0, 0, 0, 0];

    let mut ops = Vec::new();
    AndGate::new(two, 1).generate_ir(&vec![0, 1], &vec![2], &mut ops, 0);
    run_node(&ops, &mut mem);

    ops = Vec::new();
    OrGate::new(two, 1).generate_ir(&vec![0, 1], &vec![3], &mut ops, 0);
    run_node(&ops, &mut mem);

    ops = Vec::new();
    NotGate::new(1).generate_ir(&vec![2], &vec![4], &mut ops, 0);
    run_node(&ops, &mut mem);

    ops = Vec::new();
    AndGate::new(two, 1).generate_ir(&vec![3, 4], &vec![5], &mut ops, 0);
    run_node(&ops, &mut mem);

    ops = Vec::new();
    XorGate::new(two, 1).generate_ir(&vec![0, 1], &vec![6], &mut ops, 0);
    run_node(&ops, &mut mem);

    assert_eq!(mem, [a, b, a & b, a | b, !(a & b), a ^ b, a ^ b]);
}

#[test]
fn interpreter_skips_sentinels() {
    let ops = vec![
        IrOp::Copy { a: usize::MAX },
        IrOp::Load { value: 7 },
        IrOp::And { a: usize::MAX },
        IrOp::Save { out: usize::MAX },
        IrOp::Save { out: 0 },
    ];
    let mut mem = vec![0usize];
    run_node(&ops, &mut mem);
    assert_eq!(mem, [7]);
}

#[test]
fn rom_component_reads_contents() {
    let rom = ReadOnlyMemory::new(vec![5, 6, 7]);
    assert_eq!(rom.get(0), Some(5));
    assert_eq!(rom.get(2), Some(7));
    assert_eq!(rom.get(3), None);

    // The emitted instructions look the address up in the shared table.
    let mut ops = Vec::new();
    rom.generate_ir(&vec![0], &vec![1], &mut ops, 0);
    let mut mem = vec![1usize, 0];
    run_node(&ops, &mut mem);
    assert_eq!(mem[1], 6);

    // Out-of-range addresses read zero.
    let mut mem2 = vec![9usize, 3];
    run_node(&ops, &mut mem2);
    assert_eq!(mem2[1], 0);

    // Unconnected ports emit nothing.
    let mut none_ops = Vec::new();
    rom.generate_ir(&vec![usize::MAX], &vec![1], &mut none_ops, 0);
    assert_eq!(none_ops.len(), 0);
}

#[test]
fn arena_insert_get_remove() {
    let mut arena: Arena<u32> = Arena::new();
    let h1 = arena.insert(10);
    let h2 = arena.insert(20);
    assert_eq!(arena.get(h1), Some(&10));
    assert_eq!(arena.get(h2), Some(&20));

    assert_eq!(arena.remove(h1), Some(10));
    assert_eq!(arena.get(h1), None);
    // Removing an already-free slot is idempotent.
    assert_eq!(arena.remove(h1), None);

    // The freed slot is reused.
    let h3 = arena.insert(30);
    assert_eq!(h3.index(), h1.index());
    assert_eq!(arena.get(h3), Some(&30));

    // insert_with hands the value its own handle.
    let h4 = arena.insert_with(|h: Handle| h.index() as u32);
    assert_eq!(arena.get(h4), Some(&(h4.index() as u32)));

    let mut iter = arena.iter();
    let mut seen = Vec::new();
    while let Some((h, v)) = iter.next() {
        seen.push((h.index(), *v));
    }
    assert_eq!(seen.len(), 3);
}

#[test]
fn graph_connect_errors() {
    let mut graph: Graph<AnyComponent, (), Vec<usize>> = Graph::new();
    let node = graph.add(AnyComponent::Not(NotGate::new(1)), ());
    let nexus = graph.new_nexus(Vec::new());

    // A port index beyond the component's port count is invalid.
    assert_eq!(
        graph.connect(Port::Input { node, port: 5 }, nexus),
        Err(GraphError::InvalidPort)
    );
    // A dangling node handle is rejected.
    let bogus = GraphNodeHandle(Handle(99));
    assert_eq!(
        graph.connect(Port::Input { node: bogus, port: 0 }, nexus),
        Err(GraphError::Dangling)
    );
    // A dangling nexus handle is rejected.
    let bogus_nexus = NexusHandle(Handle(99));
    assert_eq!(
        graph.connect(Port::Input { node, port: 0 }, bogus_nexus),
        Err(GraphError::Dangling)
    );
    // A valid connection succeeds, and can be replaced or removed.
    assert_eq!(graph.connect(Port::Input { node, port: 0 }, nexus), Ok(()));
    assert_eq!(graph.disconnect(Port::Input { node, port: 0 }), Ok(()));
}

#[test]
fn masks_and_counts() {
    assert_eq!(mask_of(0), 0);
    assert_eq!(mask_of(1), 1);
    assert_eq!(mask_of(4), 0xF);
    assert_eq!(mask_of(8), 0xFF);

    assert!(NonZeroOneU8::new(1).is_none());
    let two = NonZeroOneU8::new(2).unwrap();
    assert_eq!(two.get(), 2);

    let gate = AndGate::new(two, 8);
    assert_eq!(gate.input_count(), 2);
    assert_eq!(gate.output_count(), 1);
    assert!(gate.input_type(1).is_some());
    assert!(gate.input_type(2).is_none());

    let inp = In::new(8, 3);
    assert_eq!(inp.input_count(), 0);
    assert_eq!(inp.external_input(), Some(3));
    let out = Out::new(8, 4);
    assert_eq!(out.external_output(), Some(4));
}

#[test]
fn integer_set_basics() {
    let mut s = IntegerSet::new();
    assert!(s.is_empty());
    s.insert(3);
    s.insert(3);
    s.insert(5);
    assert_eq!(s.len(), 2);
    assert!(s.contains(3));
    assert!(!s.contains(4));
    s.clear();
    assert!(s.is_empty());
}

#[test]
fn log_is_bounded() {
    let mut log = Log::new();
    let mut i = 0usize;
    while i < 1030 {
        log.push(Tag::Debug, format!("entry {}", i));
        i += 1;
    }
    assert_eq!(log.len(), 1024);
    // The oldest entries were dropped.
    let (tag, first) = log.entry(0).unwrap();
    assert_eq!(*tag, Tag::Debug);
    assert_eq!(first, "entry 6");
    assert!(log.entry(1024).is_none());
}

#[test]
fn test_error_messages() {
    let e = TestError::ParseError(String::from("bad token"));
    assert_eq!(e.message(), "bad token");
    let e2 = TestError::RunError(String::from("input missing"));
    assert_eq!(e2.message(), "input missing");
}
