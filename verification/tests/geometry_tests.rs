//! Grid geometry: point arithmetic, rotation, bounding boxes, wire
//! intersection, and the spatial query iterators.

use logicsim::circuit::{Aabb, AnyComponent, Circuit, Direction, Point, PointOffset, Wire};
use logicsim::component::{In, Out};
use logicsim::program::Value;

#[test]
fn point_offset_arithmetic() {
    let p = Point::new(10, 20);
    assert_eq!(p.add_offset(PointOffset::new(-3, 5)), Some(Point::new(7, 25)));
    // Leaving the grid yields no point rather than wrapping.
    assert_eq!(Point::new(0, 0).add_offset(PointOffset::new(-1, 0)), None);
    assert_eq!(Point::new(u16::MAX, 0).add_offset(PointOffset::new(1, 0)), None);
}

#[test]
fn direction_rotation() {
    assert_eq!(Direction::Right.rotate_clockwise(), Direction::Down);
    assert_eq!(Direction::Down.rotate_clockwise(), Direction::Left);
    assert_eq!(Direction::Left.rotate_clockwise(), Direction::Up);
    assert_eq!(Direction::Up.rotate_clockwise(), Direction::Right);

    let o = PointOffset::new(1, 0);
    assert_eq!(Direction::Right.rotate_offset(o), Some(PointOffset::new(1, 0)));
    assert_eq!(Direction::Down.rotate_offset(o), Some(PointOffset::new(0, 1)));
    assert_eq!(Direction::Left.rotate_offset(o), Some(PointOffset::new(-1, 0)));
    assert_eq!(Direction::Up.rotate_offset(o), Some(PointOffset::new(0, -1)));
    // Negating the minimum offset overflows, so there is no such rotation.
    assert_eq!(Direction::Left.rotate_offset(PointOffset::new(i8::MIN, 0)), None);
}

#[test]
fn wire_intersection_formula() {
    // A 45-degree wire covers exactly the diagonal points of its box.
    let w = Wire::new(Point::new(0, 0), Point::new(5, 5));
    assert!(w.intersect_point(Point::new(0, 0)));
    assert!(w.intersect_point(Point::new(3, 3)));
    assert!(w.intersect_point(Point::new(5, 5)));
    assert!(!w.intersect_point(Point::new(3, 4)));
    assert!(!w.intersect_point(Point::new(6, 6)));

    // Axis-aligned wires cover their whole segment, including zero-width.
    let v = Wire::new(Point::new(2, 7), Point::new(2, 3));
    assert!(v.intersect_point(Point::new(2, 5)));
    assert!(!v.intersect_point(Point::new(3, 5)));
    let dot = Wire::new(Point::new(9, 9), Point::new(9, 9));
    assert!(dot.intersect_point(Point::new(9, 9)));

    let bb = v.aabb();
    assert!(bb.intersect_point(Point::new(2, 3)));
    assert!(bb.intersect_point(Point::new(2, 7)));
    assert!(!bb.intersect_point(Point::new(2, 8)));
    assert!(Aabb::all().intersect_point(Point::new(30000, 60000)));
}

#[test]
fn spatial_queries() {
    let mut circuit: Circuit<AnyComponent> = Circuit::new();
    circuit.add_component(AnyComponent::In(In::new(1, 0)), Point::new(0, 0), Direction::Right);
    circuit.add_component(
        AnyComponent::Out(Out::new(1, 0)),
        Point::new(200, 200),
        Direction::Right,
    );
    circuit.add_wire(Wire::new(Point::new(0, 0), Point::new(5, 0)));
    circuit.add_wire(Wire::new(Point::new(100, 100), Point::new(100, 105)));
    assert_eq!(circuit.wire_count(), 2);

    // Only the first wire touches the box around the origin.
    let mut near_origin = circuit.wires(Aabb::new(Point::new(0, 0), Point::new(10, 10)));
    let first = near_origin.next().expect("one wire near the origin");
    assert_eq!(*first, Wire::new(Point::new(0, 0), Point::new(5, 0)));
    assert!(near_origin.next().is_none());

    // Both components lie inside the full grid, only one near the origin.
    let mut all = circuit.components(Aabb::all());
    let mut count = 0;
    while all.next().is_some() {
        count += 1;
    }
    assert_eq!(count, 2);
    let mut near = circuit.components(Aabb::new(Point::new(0, 0), Point::new(10, 10)));
    let (_, position, _) = near.next().expect("one component near the origin");
    assert_eq!(position, Point::new(0, 0));
    assert!(near.next().is_none());
}

/// Two runs of the same program from fresh states on the same inputs pass
/// through identical outputs.
#[test]
fn deterministic_runs() {
    let mut circuit: Circuit<AnyComponent> = Circuit::new();
    circuit.add_component(
        AnyComponent::In(In::new(8, 0)),
        Point::new(0, 0),
        Direction::Right,
    );
    circuit.add_component(AnyComponent::Out(Out::new(8, 0)), Point::new(2, 0), Direction::Right);
    circuit.add_wire(Wire::new(Point::new(0, 0), Point::new(2, 0)));
    let program = circuit.generate_ir();

    let mut outputs = Vec::new();
    for _ in 0..2 {
        let mut state = program.clone().new_state();
        state.write_inputs(&vec![Value::Driven(77)]);
        let mut budget = 16;
        while budget > 0 && state.step() != 0 {
            budget -= 1;
        }
        let mut out = vec![Value::Floating];
        state.read_outputs(&mut out);
        // Reading is stable: both banks agree after a step.
        let mut out2 = vec![Value::Floating];
        state.read_outputs(&mut out2);
        assert_eq!(out, out2);
        outputs.push(out);
    }
    assert_eq!(outputs[0], outputs[1]);
    assert_eq!(outputs[0], [Value::Driven(77)]);
}
