//! Spatial layer above the graph: wires on an integer grid, component
//! placements, a zone grid accelerating point queries, and the
//! auto-connection of component ports through wire endpoints.

use vstd::prelude::*;

use crate::arena::Handle;
use crate::component::{
    AndGate, Component, In, InputType, NotGate, OrGate, Out, OutputType, XorGate,
};
use crate::graph::{
    Graph, GraphIter, GraphNode, GraphNodeHandle, Nexus, NexusHandle, Port,
    ext_indices_ok, lemma_compile_equiv, nodes_equiv, spec_compile,
};
use crate::program::{IrOp, OpModel, Program, program_wf};
use crate::rom::ReadOnlyMemory;
use std::sync::Arc;

verus! {

/// A point on the circuit grid.
#[derive(Clone, Copy, Debug, PartialEq, Eq, Structural)]
pub struct Point {
    pub x: u16,
    pub y: u16,
}

impl Point {
    pub fn new(x: u16, y: u16) -> (r: Self)
        ensures
            r.x == x && r.y == y,
    {
        Self { x, y }
    }

    /// `self + rhs`, or `None` if any coordinate leaves the grid.
    pub fn add_offset(self, rhs: PointOffset) -> (r: Option<Point>)
        ensures
            r == spec_add_offset(self, rhs),
    {
        let x = self.x as i32 + rhs.x as i32;
        let y = self.y as i32 + rhs.y as i32;
        if 0 <= x && x <= u16::MAX as i32 && 0 <= y && y <= u16::MAX as i32 {
            Some(Point { x: x as u16, y: y as u16 })
        } else {
            None
        }
    }
}

/// An offset relative to a [`Point`].
#[derive(Clone, Copy, Debug, PartialEq, Eq, Structural)]
pub struct PointOffset {
    pub x: i8,
    pub y: i8,
}

impl PointOffset {
    pub fn new(x: i8, y: i8) -> (r: Self)
        ensures
            r.x == x && r.y == y,
    {
        Self { x, y }
    }
}

pub open spec fn spec_add_offset(p: Point, o: PointOffset) -> Option<Point> {
    let x = p.x as int + o.x as int;
    let y = p.y as int + o.y as int;
    if 0 <= x <= u16::MAX && 0 <= y <= u16::MAX {
        Some(Point { x: x as u16, y: y as u16 })
    } else {
        None
    }
}

/// The facing of a placed component.
#[derive(Clone, Copy, Debug, PartialEq, Eq, Structural)]
pub enum Direction {
    Right,
    Down,
    Left,
    Up,
}

impl Direction {
    pub fn rotate_clockwise(self) -> (r: Self)
        ensures
            r == spec_rotate_clockwise(self),
    {
        match self {
            Self::Right => Self::Down,
            Self::Down => Self::Left,
            Self::Left => Self::Up,
            Self::Up => Self::Right,
        }
    }

    /// Rotate an offset by this direction, or `None` on overflow.
    pub fn rotate_offset(self, rhs: PointOffset) -> (r: Option<PointOffset>)
        ensures
            r == spec_rotate_offset(self, rhs),
    {
        match self {
            Self::Right => Some(PointOffset { x: rhs.x, y: rhs.y }),
            Self::Down => {
                if rhs.y == i8::MIN {
                    None
                } else {
                    Some(PointOffset { x: -rhs.y, y: rhs.x })
                }
            },
            Self::Left => {
                if rhs.x == i8::MIN || rhs.y == i8::MIN {
                    None
                } else {
                    Some(PointOffset { x: -rhs.x, y: -rhs.y })
                }
            },
            Self::Up => {
                if rhs.x == i8::MIN {
                    None
                } else {
                    Some(PointOffset { x: rhs.y, y: -rhs.x })
                }
            },
        }
    }
}

pub open spec fn spec_rotate_clockwise(d: Direction) -> Direction {
    match d {
        Direction::Right => Direction::Down,
        Direction::Down => Direction::Left,
        Direction::Left => Direction::Up,
        Direction::Up => Direction::Right,
    }
}

pub open spec fn spec_rotate_offset(d: Direction, o: PointOffset) -> Option<PointOffset> {
    match d {
        Direction::Right => Some(o),
        Direction::Down => if o.y == i8::MIN {
            None
        } else {
            Some(PointOffset { x: (-(o.y as int)) as i8, y: o.x })
        },
        Direction::Left => if o.x == i8::MIN || o.y == i8::MIN {
            None
        } else {
            Some(PointOffset { x: (-(o.x as int)) as i8, y: (-(o.y as int)) as i8 })
        },
        Direction::Up => if o.x == i8::MIN {
            None
        } else {
            Some(PointOffset { x: o.y, y: (-(o.x as int)) as i8 })
        },
    }
}

/// An axis-aligned bounding box (inclusive on all sides).
#[derive(Clone, Copy, Debug)]
pub struct Aabb {
    pub min: Point,
    pub max: Point,
}

impl Aabb {
    /// Create a new AABB containing two points as tightly as possible.
    pub fn new(p1: Point, p2: Point) -> (r: Self)
        ensures
            r == spec_aabb(p1, p2),
    {
        Self {
            min: Point {
                x: if p1.x < p2.x {
                    p1.x
                } else {
                    p2.x
                },
                y: if p1.y < p2.y {
                    p1.y
                } else {
                    p2.y
                },
            },
            max: Point {
                x: if p1.x > p2.x {
                    p1.x
                } else {
                    p2.x
                },
                y: if p1.y > p2.y {
                    p1.y
                } else {
                    p2.y
                },
            },
        }
    }

    /// The box containing the whole grid.
    pub fn all() -> (r: Self)
        ensures
            r.min == (Point { x: 0, y: 0 }),
            r.max == (Point { x: u16::MAX, y: u16::MAX }),
    {
        Self { min: Point { x: 0, y: 0 }, max: Point { x: u16::MAX, y: u16::MAX } }
    }

    /// Check if this AABB contains a point.
    pub fn intersect_point(&self, p: Point) -> (r: bool)
        ensures
            r == spec_aabb_contains(*self, p),
    {
        self.min.x <= p.x && p.x <= self.max.x && self.min.y <= p.y && p.y <= self.max.y
    }
}

pub open spec fn spec_aabb(p1: Point, p2: Point) -> Aabb {
    Aabb {
        min: Point {
            x: if p1.x < p2.x {
                p1.x
            } else {
                p2.x
            },
            y: if p1.y < p2.y {
                p1.y
            } else {
                p2.y
            },
        },
        max: Point {
            x: if p1.x > p2.x {
                p1.x
            } else {
                p2.x
            },
            y: if p1.y > p2.y {
                p1.y
            } else {
                p2.y
            },
        },
    }
}

pub open spec fn spec_aabb_contains(b: Aabb, p: Point) -> bool {
    b.min.x <= p.x <= b.max.x && b.min.y <= p.y <= b.max.y
}

/// A wire between two grid points.
#[derive(Clone, Copy, Debug, PartialEq, Eq, Structural)]
pub struct Wire {
    pub from: Point,
    pub to: Point,
}

/// The point lies on the closed segment of the wire: it is inside the
/// wire's bounding box and collinear with its endpoints.
pub open spec fn wire_covers(w: Wire, p: Point) -> bool {
    &&& spec_aabb_contains(spec_aabb(w.from, w.to), p)
    &&& (w.to.x - w.from.x) * (p.y - w.from.y) == (w.to.y - w.from.y) * (p.x - w.from.x)
}

impl Wire {
    pub fn new(from: Point, to: Point) -> (r: Self)
        ensures
            r.from == from && r.to == to,
    {
        Self { from, to }
    }

    /// Check if this wire intersects with a point.
    pub fn intersect_point(&self, point: Point) -> (r: bool)
        ensures
            r == wire_covers(*self, point),
    {
        if !self.aabb().intersect_point(point) {
            return false;
        }
        let (x1, y1) = (self.from.x as i64, self.from.y as i64);
        let (x2, y2) = (self.to.x as i64, self.to.y as i64);
        let (xp, yp) = (point.x as i64, point.y as i64);
        let (dx, dy) = (x2 - x1, y2 - y1);
        let (dxp, dyp) = (xp - x1, yp - y1);
        proof {
            assert(-(65535 * 65535) <= dx * dyp <= 65535 * 65535) by (nonlinear_arith)
                requires
                    -65535 <= dx <= 65535,
                    -65535 <= dyp <= 65535,
            ;
            assert(-(65535 * 65535) <= dy * dxp <= 65535 * 65535) by (nonlinear_arith)
                requires
                    -65535 <= dy <= 65535,
                    -65535 <= dxp <= 65535,
            ;
        }
        dx * dyp == dy * dxp
    }

    /// Return the AABB enclosing this wire.
    pub fn aabb(&self) -> (r: Aabb)
        ensures
            r == spec_aabb(self.from, self.to),
    {
        Aabb::new(self.from, self.to)
    }
}

/// A component with fixed input and output pin locations, relative to its
/// placement point and rotated by its direction.
pub trait CircuitComponent: Component {
    spec fn spec_inputs(&self) -> Seq<PointOffset>;

    spec fn spec_outputs(&self) -> Seq<PointOffset>;

    /// There is one pin location per port.
    proof fn lemma_port_offsets(&self)
        ensures
            self.spec_inputs().len() == self.spec_input_count(),
            self.spec_outputs().len() == self.spec_output_count(),
    ;

    /// All the input pin locations of this component.
    fn inputs(&self) -> (r: Vec<PointOffset>)
        ensures
            r@ == self.spec_inputs(),
    ;

    /// All the output pin locations of this component.
    fn outputs(&self) -> (r: Vec<PointOffset>)
        ensures
            r@ == self.spec_outputs(),
    ;
}

/// Pin location of input `i` of an `n`-input gate: one column left of the
/// body, rows spread around the centre, clamped to the offset range.
pub open spec fn gate_input_offset(n: int, i: int) -> PointOffset {
    let y = 2 * i - (n - 1);
    PointOffset {
        x: (-1) as i8,
        y: if y < i8::MIN {
            i8::MIN
        } else if y > i8::MAX {
            i8::MAX
        } else {
            y as i8
        },
    }
}

pub open spec fn gate_input_offsets(n: int) -> Seq<PointOffset> {
    Seq::new(n as nat, |i: int| gate_input_offset(n, i))
}

fn build_gate_input_offsets(n: usize) -> (r: Vec<PointOffset>)
    requires
        n <= 255,
    ensures
        r@ == gate_input_offsets(n as int),
{
    let mut v: Vec<PointOffset> = Vec::new();
    let mut i: usize = 0;
    while i < n
        invariant
            i <= n,
            n <= 255,
            v@ =~= Seq::new(i as nat, |j: int| gate_input_offset(n as int, j)),
        decreases n - i,
    {
        let y = 2 * (i as i32) - (n as i32 - 1);
        let clamped: i8 = if y < i8::MIN as i32 {
            i8::MIN
        } else if y > i8::MAX as i32 {
            i8::MAX
        } else {
            y as i8
        };
        v.push(PointOffset { x: -1, y: clamped });
        proof {
            assert(v@ =~= Seq::new((i + 1) as nat, |j: int| gate_input_offset(n as int, j)));
        }
        i = i + 1;
    }
    v
}

impl CircuitComponent for In {
    open spec fn spec_inputs(&self) -> Seq<PointOffset> {
        Seq::empty()
    }

    open spec fn spec_outputs(&self) -> Seq<PointOffset> {
        seq![PointOffset { x: 0, y: 0 }]
    }

    proof fn lemma_port_offsets(&self) {
    }

    fn inputs(&self) -> (r: Vec<PointOffset>) {
        let r: Vec<PointOffset> = Vec::new();
        proof {
            assert(r@ =~= self.spec_inputs());
        }
        r
    }

    fn outputs(&self) -> (r: Vec<PointOffset>) {
        let mut r: Vec<PointOffset> = Vec::new();
        r.push(PointOffset { x: 0, y: 0 });
        proof {
            assert(r@ =~= self.spec_outputs());
        }
        r
    }
}

impl CircuitComponent for Out {
    open spec fn spec_inputs(&self) -> Seq<PointOffset> {
        seq![PointOffset { x: 0, y: 0 }]
    }

    open spec fn spec_outputs(&self) -> Seq<PointOffset> {
        Seq::empty()
    }

    proof fn lemma_port_offsets(&self) {
    }

    fn inputs(&self) -> (r: Vec<PointOffset>) {
        let mut r: Vec<PointOffset> = Vec::new();
        r.push(PointOffset { x: 0, y: 0 });
        proof {
            assert(r@ =~= self.spec_inputs());
        }
        r
    }

    fn outputs(&self) -> (r: Vec<PointOffset>) {
        let r: Vec<PointOffset> = Vec::new();
        proof {
            assert(r@ =~= self.spec_outputs());
        }
        r
    }
}

impl CircuitComponent for NotGate {
    open spec fn spec_inputs(&self) -> Seq<PointOffset> {
        seq![PointOffset { x: (-1) as i8, y: 0 }]
    }

    open spec fn spec_outputs(&self) -> Seq<PointOffset> {
        seq![PointOffset { x: 1, y: 0 }]
    }

    proof fn lemma_port_offsets(&self) {
    }

    fn inputs(&self) -> (r: Vec<PointOffset>) {
        let mut r: Vec<PointOffset> = Vec::new();
        r.push(PointOffset { x: -1, y: 0 });
        proof {
            assert(r@ =~= self.spec_inputs());
        }
        r
    }

    fn outputs(&self) -> (r: Vec<PointOffset>) {
        let mut r: Vec<PointOffset> = Vec::new();
        r.push(PointOffset { x: 1, y: 0 });
        proof {
            assert(r@ =~= self.spec_outputs());
        }
        r
    }
}

impl CircuitComponent for ReadOnlyMemory {
    open spec fn spec_inputs(&self) -> Seq<PointOffset> {
        seq![PointOffset { x: (-1) as i8, y: 0 }]
    }

    open spec fn spec_outputs(&self) -> Seq<PointOffset> {
        seq![PointOffset { x: 1, y: 0 }]
    }

    proof fn lemma_port_offsets(&self) {
    }

    fn inputs(&self) -> (r: Vec<PointOffset>) {
        let mut r: Vec<PointOffset> = Vec::new();
        r.push(PointOffset { x: -1, y: 0 });
        proof {
            assert(r@ =~= self.spec_inputs());
        }
        r
    }

    fn outputs(&self) -> (r: Vec<PointOffset>) {
        let mut r: Vec<PointOffset> = Vec::new();
        r.push(PointOffset { x: 1, y: 0 });
        proof {
            assert(r@ =~= self.spec_outputs());
        }
        r
    }
}

impl CircuitComponent for AndGate {
    open spec fn spec_inputs(&self) -> Seq<PointOffset> {
        gate_input_offsets(self.spec_input_count() as int)
    }

    open spec fn spec_outputs(&self) -> Seq<PointOffset> {
        seq![PointOffset { x: 1, y: 0 }]
    }

    proof fn lemma_port_offsets(&self) {
    }

    fn inputs(&self) -> (r: Vec<PointOffset>) {
        build_gate_input_offsets(self.input_count())
    }

    fn outputs(&self) -> (r: Vec<PointOffset>) {
        let mut r: Vec<PointOffset> = Vec::new();
        r.push(PointOffset { x: 1, y: 0 });
        proof {
            assert(r@ =~= self.spec_outputs());
        }
        r
    }
}

impl CircuitComponent for OrGate {
    open spec fn spec_inputs(&self) -> Seq<PointOffset> {
        gate_input_offsets(self.spec_input_count() as int)
    }

    open spec fn spec_outputs(&self) -> Seq<PointOffset> {
        seq![PointOffset { x: 1, y: 0 }]
    }

    proof fn lemma_port_offsets(&self) {
    }

    fn inputs(&self) -> (r: Vec<PointOffset>) {
        build_gate_input_offsets(self.input_count())
    }

    fn outputs(&self) -> (r: Vec<PointOffset>) {
        let mut r: Vec<PointOffset> = Vec::new();
        r.push(PointOffset { x: 1, y: 0 });
        proof {
            assert(r@ =~= self.spec_outputs());
        }
        r
    }
}

impl CircuitComponent for XorGate {
    open spec fn spec_inputs(&self) -> Seq<PointOffset> {
        gate_input_offsets(self.spec_input_count() as int)
    }

    open spec fn spec_outputs(&self) -> Seq<PointOffset> {
        seq![PointOffset { x: 1, y: 0 }]
    }

    proof fn lemma_port_offsets(&self) {
    }

    fn inputs(&self) -> (r: Vec<PointOffset>) {
        build_gate_input_offsets(self.input_count())
    }

    fn outputs(&self) -> (r: Vec<PointOffset>) {
        let mut r: Vec<PointOffset> = Vec::new();
        r.push(PointOffset { x: 1, y: 0 });
        proof {
            assert(r@ =~= self.spec_outputs());
        }
        r
    }
}

/// The closed sum of the primitive component kinds, usable as the node
/// type of a [`Circuit`].
pub enum AnyComponent {
    And(AndGate),
    Or(OrGate),
    Xor(XorGate),
    Not(NotGate),
    In(In),
    Out(Out),
    Rom(ReadOnlyMemory),
}

impl Component for AnyComponent {
    open spec fn spec_input_count(&self) -> usize {
        match self {
            AnyComponent::And(g) => g.spec_input_count(),
            AnyComponent::Or(g) => g.spec_input_count(),
            AnyComponent::Xor(g) => g.spec_input_count(),
            AnyComponent::Not(g) => g.spec_input_count(),
            AnyComponent::In(g) => g.spec_input_count(),
            AnyComponent::Out(g) => g.spec_input_count(),
            AnyComponent::Rom(g) => g.spec_input_count(),
        }
    }

    open spec fn spec_output_count(&self) -> usize {
        match self {
            AnyComponent::And(g) => g.spec_output_count(),
            AnyComponent::Or(g) => g.spec_output_count(),
            AnyComponent::Xor(g) => g.spec_output_count(),
            AnyComponent::Not(g) => g.spec_output_count(),
            AnyComponent::In(g) => g.spec_output_count(),
            AnyComponent::Out(g) => g.spec_output_count(),
            AnyComponent::Rom(g) => g.spec_output_count(),
        }
    }

    open spec fn spec_input_type(&self, input: usize) -> Option<InputType> {
        match self {
            AnyComponent::And(g) => g.spec_input_type(input),
            AnyComponent::Or(g) => g.spec_input_type(input),
            AnyComponent::Xor(g) => g.spec_input_type(input),
            AnyComponent::Not(g) => g.spec_input_type(input),
            AnyComponent::In(g) => g.spec_input_type(input),
            AnyComponent::Out(g) => g.spec_input_type(input),
            AnyComponent::Rom(g) => g.spec_input_type(input),
        }
    }

    open spec fn spec_output_type(&self, output: usize) -> Option<OutputType> {
        match self {
            AnyComponent::And(g) => g.spec_output_type(output),
            AnyComponent::Or(g) => g.spec_output_type(output),
            AnyComponent::Xor(g) => g.spec_output_type(output),
            AnyComponent::Not(g) => g.spec_output_type(output),
            AnyComponent::In(g) => g.spec_output_type(output),
            AnyComponent::Out(g) => g.spec_output_type(output),
            AnyComponent::Rom(g) => g.spec_output_type(output),
        }
    }

    open spec fn spec_ir(&self, inputs: Seq<usize>, outputs: Seq<usize>) -> Seq<OpModel> {
        match self {
            AnyComponent::And(g) => g.spec_ir(inputs, outputs),
            AnyComponent::Or(g) => g.spec_ir(inputs, outputs),
            AnyComponent::Xor(g) => g.spec_ir(inputs, outputs),
            AnyComponent::Not(g) => g.spec_ir(inputs, outputs),
            AnyComponent::In(g) => g.spec_ir(inputs, outputs),
            AnyComponent::Out(g) => g.spec_ir(inputs, outputs),
            AnyComponent::Rom(g) => g.spec_ir(inputs, outputs),
        }
    }

    open spec fn spec_extra_memory(&self) -> usize {
        match self {
            AnyComponent::And(g) => g.spec_extra_memory(),
            AnyComponent::Or(g) => g.spec_extra_memory(),
            AnyComponent::Xor(g) => g.spec_extra_memory(),
            AnyComponent::Not(g) => g.spec_extra_memory(),
            AnyComponent::In(g) => g.spec_extra_memory(),
            AnyComponent::Out(g) => g.spec_extra_memory(),
            AnyComponent::Rom(g) => g.spec_extra_memory(),
        }
    }

    open spec fn spec_external_input(&self) -> Option<usize> {
        match self {
            AnyComponent::And(g) => g.spec_external_input(),
            AnyComponent::Or(g) => g.spec_external_input(),
            AnyComponent::Xor(g) => g.spec_external_input(),
            AnyComponent::Not(g) => g.spec_external_input(),
            AnyComponent::In(g) => g.spec_external_input(),
            AnyComponent::Out(g) => g.spec_external_input(),
            AnyComponent::Rom(g) => g.spec_external_input(),
        }
    }

    open spec fn spec_external_output(&self) -> Option<usize> {
        match self {
            AnyComponent::And(g) => g.spec_external_output(),
            AnyComponent::Or(g) => g.spec_external_output(),
            AnyComponent::Xor(g) => g.spec_external_output(),
            AnyComponent::Not(g) => g.spec_external_output(),
            AnyComponent::In(g) => g.spec_external_output(),
            AnyComponent::Out(g) => g.spec_external_output(),
            AnyComponent::Rom(g) => g.spec_external_output(),
        }
    }

    proof fn lemma_type_counts(&self) {
        match self {
            AnyComponent::And(g) => g.lemma_type_counts(),
            AnyComponent::Or(g) => g.lemma_type_counts(),
            AnyComponent::Xor(g) => g.lemma_type_counts(),
            AnyComponent::Not(g) => g.lemma_type_counts(),
            AnyComponent::In(g) => g.lemma_type_counts(),
            AnyComponent::Out(g) => g.lemma_type_counts(),
            AnyComponent::Rom(g) => g.lemma_type_counts(),
        }
    }

    proof fn lemma_ir_valid(&self, inputs: Seq<usize>, outputs: Seq<usize>, len: nat) {
        match self {
            AnyComponent::And(g) => g.lemma_ir_valid(inputs, outputs, len),
            AnyComponent::Or(g) => g.lemma_ir_valid(inputs, outputs, len),
            AnyComponent::Xor(g) => g.lemma_ir_valid(inputs, outputs, len),
            AnyComponent::Not(g) => g.lemma_ir_valid(inputs, outputs, len),
            AnyComponent::In(g) => g.lemma_ir_valid(inputs, outputs, len),
            AnyComponent::Out(g) => g.lemma_ir_valid(inputs, outputs, len),
            AnyComponent::Rom(g) => g.lemma_ir_valid(inputs, outputs, len),
        }
    }

    fn input_count(&self) -> usize {
        match self {
            AnyComponent::And(g) => g.input_count(),
            AnyComponent::Or(g) => g.input_count(),
            AnyComponent::Xor(g) => g.input_count(),
            AnyComponent::Not(g) => g.input_count(),
            AnyComponent::In(g) => g.input_count(),
            AnyComponent::Out(g) => g.input_count(),
            AnyComponent::Rom(g) => g.input_count(),
        }
    }

    fn input_type(&self, input: usize) -> Option<InputType> {
        match self {
            AnyComponent::And(g) => g.input_type(input),
            AnyComponent::Or(g) => g.input_type(input),
            AnyComponent::Xor(g) => g.input_type(input),
            AnyComponent::Not(g) => g.input_type(input),
            AnyComponent::In(g) => g.input_type(input),
            AnyComponent::Out(g) => g.input_type(input),
            AnyComponent::Rom(g) => g.input_type(input),
        }
    }

    fn output_count(&self) -> usize {
        match self {
            AnyComponent::And(g) => g.output_count(),
            AnyComponent::Or(g) => g.output_count(),
            AnyComponent::Xor(g) => g.output_count(),
            AnyComponent::Not(g) => g.output_count(),
            AnyComponent::In(g) => g.output_count(),
            AnyComponent::Out(g) => g.output_count(),
            AnyComponent::Rom(g) => g.output_count(),
        }
    }

    fn output_type(&self, output: usize) -> Option<OutputType> {
        match self {
            AnyComponent::And(g) => g.output_type(output),
            AnyComponent::Or(g) => g.output_type(output),
            AnyComponent::Xor(g) => g.output_type(output),
            AnyComponent::Not(g) => g.output_type(output),
            AnyComponent::In(g) => g.output_type(output),
            AnyComponent::Out(g) => g.output_type(output),
            AnyComponent::Rom(g) => g.output_type(output),
        }
    }

    fn generate_ir(
        &self,
        inputs: &Vec<usize>,
        outputs: &Vec<usize>,
        out: &mut Vec<IrOp>,
        memory_size: usize,
    ) -> usize {
        match self {
            AnyComponent::And(g) => g.generate_ir(inputs, outputs, out, memory_size),
            AnyComponent::Or(g) => g.generate_ir(inputs, outputs, out, memory_size),
            AnyComponent::Xor(g) => g.generate_ir(inputs, outputs, out, memory_size),
            AnyComponent::Not(g) => g.generate_ir(inputs, outputs, out, memory_size),
            AnyComponent::In(g) => g.generate_ir(inputs, outputs, out, memory_size),
            AnyComponent::Out(g) => g.generate_ir(inputs, outputs, out, memory_size),
            AnyComponent::Rom(g) => g.generate_ir(inputs, outputs, out, memory_size),
        }
    }

    fn external_input(&self) -> Option<usize> {
        match self {
            AnyComponent::And(g) => g.external_input(),
            AnyComponent::Or(g) => g.external_input(),
            AnyComponent::Xor(g) => g.external_input(),
            AnyComponent::Not(g) => g.external_input(),
            AnyComponent::In(g) => g.external_input(),
            AnyComponent::Out(g) => g.external_input(),
            AnyComponent::Rom(g) => g.external_input(),
        }
    }

    fn external_output(&self) -> Option<usize> {
        match self {
            AnyComponent::And(g) => g.external_output(),
            AnyComponent::Or(g) => g.external_output(),
            AnyComponent::Xor(g) => g.external_output(),
            AnyComponent::Not(g) => g.external_output(),
            AnyComponent::In(g) => g.external_output(),
            AnyComponent::Out(g) => g.external_output(),
            AnyComponent::Rom(g) => g.external_output(),
        }
    }
}

impl CircuitComponent for AnyComponent {
    open spec fn spec_inputs(&self) -> Seq<PointOffset> {
        match self {
            AnyComponent::And(g) => g.spec_inputs(),
            AnyComponent::Or(g) => g.spec_inputs(),
            AnyComponent::Xor(g) => g.spec_inputs(),
            AnyComponent::Not(g) => g.spec_inputs(),
            AnyComponent::In(g) => g.spec_inputs(),
            AnyComponent::Out(g) => g.spec_inputs(),
            AnyComponent::Rom(g) => g.spec_inputs(),
        }
    }

    open spec fn spec_outputs(&self) -> Seq<PointOffset> {
        match self {
            AnyComponent::And(g) => g.spec_outputs(),
            AnyComponent::Or(g) => g.spec_outputs(),
            AnyComponent::Xor(g) => g.spec_outputs(),
            AnyComponent::Not(g) => g.spec_outputs(),
            AnyComponent::In(g) => g.spec_outputs(),
            AnyComponent::Out(g) => g.spec_outputs(),
            AnyComponent::Rom(g) => g.spec_outputs(),
        }
    }

    proof fn lemma_port_offsets(&self) {
        match self {
            AnyComponent::And(g) => g.lemma_port_offsets(),
            AnyComponent::Or(g) => g.lemma_port_offsets(),
            AnyComponent::Xor(g) => g.lemma_port_offsets(),
            AnyComponent::Not(g) => g.lemma_port_offsets(),
            AnyComponent::In(g) => g.lemma_port_offsets(),
            AnyComponent::Out(g) => g.lemma_port_offsets(),
            AnyComponent::Rom(g) => g.lemma_port_offsets(),
        }
    }

    fn inputs(&self) -> Vec<PointOffset> {
        match self {
            AnyComponent::And(g) => g.inputs(),
            AnyComponent::Or(g) => g.inputs(),
            AnyComponent::Xor(g) => g.inputs(),
            AnyComponent::Not(g) => g.inputs(),
            AnyComponent::In(g) => g.inputs(),
            AnyComponent::Out(g) => g.inputs(),
            AnyComponent::Rom(g) => g.inputs(),
        }
    }

    fn outputs(&self) -> Vec<PointOffset> {
        match self {
            AnyComponent::And(g) => g.outputs(),
            AnyComponent::Or(g) => g.outputs(),
            AnyComponent::Xor(g) => g.outputs(),
            AnyComponent::Not(g) => g.outputs(),
            AnyComponent::In(g) => g.outputs(),
            AnyComponent::Out(g) => g.outputs(),
            AnyComponent::Rom(g) => g.outputs(),
        }
    }
}

/// Zones per axis of the zone grid.
pub const ZONE_AXIS: usize = 1024;

/// Grid points per zone side.
pub const ZONE_SIZE: usize = 64;

/// Total number of zones.
pub const ZONE_COUNT: usize = 1024 * 1024;

/// The index of the zone containing a point.
pub open spec fn zone_index_of(p: Point) -> int {
    (p.y as int / 64) * 1024 + (p.x as int / 64)
}

/// Zone `zi` overlaps the bounding box `b`.
pub open spec fn zone_overlaps(b: Aabb, zi: int) -> bool {
    &&& b.min.x as int / 64 <= zi % 1024 <= b.max.x as int / 64
    &&& b.min.y as int / 64 <= zi / 1024 <= b.max.y as int / 64
}

/// A single zone in a circuit: the indices of the wires whose bounding
/// boxes overlap its region.
pub struct Zone {
    nodes: Vec<usize>,
}

impl Zone {
    pub closed spec fn spec_nodes(&self) -> Seq<usize> {
        self.nodes@
    }

    fn new() -> (r: Zone)
        ensures
            r.spec_nodes() =~= Seq::<usize>::empty(),
    {
        Zone { nodes: Vec::new() }
    }

    /// Register a wire index in this zone.
    pub fn add_wire(&mut self, index: usize)
        ensures
            final(self).spec_nodes() == old(self).spec_nodes().push(index),
    {
        self.nodes.push(index);
    }

    /// All wires registered here whose bodies cover the position.
    pub fn intersect_point(&self, wires: &Vec<(Wire, NexusHandle)>, position: Point) -> (r: Vec<
        usize,
    >)
        requires
            forall|j: int|
                0 <= j < self.spec_nodes().len() ==> (#[trigger] self.spec_nodes()[j])
                    < wires@.len(),
        ensures
            forall|j: int|
                0 <= j < r@.len() ==> (#[trigger] r@[j]) < wires@.len() && wire_covers(
                    wires@[r@[j] as int].0,
                    position,
                ),
            forall|k: usize|
                self.spec_nodes().contains(k) && wire_covers(wires@[k as int].0, position)
                    ==> r@.contains(k),
    {
        let mut r: Vec<usize> = Vec::new();
        let n = self.nodes.len();
        let mut j: usize = 0;
        while j < n
            invariant
                j <= n,
                n == self.spec_nodes().len(),
                forall|q: int|
                    0 <= q < self.spec_nodes().len() ==> (#[trigger] self.spec_nodes()[q])
                        < wires@.len(),
                forall|q: int|
                    0 <= q < r@.len() ==> (#[trigger] r@[q]) < wires@.len() && wire_covers(
                        wires@[r@[q] as int].0,
                        position,
                    ),
                forall|q: int|
                    0 <= q < j && wire_covers(
                        wires@[self.spec_nodes()[q] as int].0,
                        position,
                    ) ==> r@.contains(#[trigger] self.spec_nodes()[q]),
            decreases n - j,
        {
            let k = self.nodes[j];
            let (w, _) = wires[k];
            if w.intersect_point(position) {
                let ghost r_pre = r@;
                r.push(k);
                proof {
                    assert(r@[r_pre.len() as int] == k);
                    assert forall|q: int|
                        0 <= q < j + 1 && wire_covers(
                            wires@[self.spec_nodes()[q] as int].0,
                            position,
                        ) implies r@.contains(#[trigger] self.spec_nodes()[q]) by {
                        if q < j {
                            assert(r_pre.contains(self.spec_nodes()[q]));
                            let w2 = choose|w2: int|
                                0 <= w2 < r_pre.len() && r_pre[w2] == self.spec_nodes()[q];
                            assert(r@[w2] == self.spec_nodes()[q]);
                        }
                    }
                }
            }
            j = j + 1;
        }
        proof {
            assert forall|k: usize|
                self.spec_nodes().contains(k) && wire_covers(
                    wires@[k as int].0,
                    position,
                ) implies r@.contains(k) by {
                let q = choose|q: int|
                    0 <= q < self.spec_nodes().len() && self.spec_nodes()[q] == k;
                assert(r@.contains(self.spec_nodes()[q]));
            }
        }
        r
    }
}

/// The pin position of a port: the component's placement point plus its
/// rotated offset; `None` if either step leaves the grid.
pub open spec fn port_pos(meta: (Point, Direction), off: PointOffset) -> Option<Point> {
    match spec_rotate_offset(meta.1, off) {
        Some(o2) => spec_add_offset(meta.0, o2),
        None => None,
    }
}

/// The nexus of the last wire (in insertion order) with an endpoint at
/// `pos`, among the first `k` wires.
pub open spec fn last_wire_at(
    wires: Seq<(Wire, NexusHandle)>,
    pos: Point,
    k: int,
) -> Option<NexusHandle>
    decreases k,
{
    if k <= 0 {
        None
    } else if wires[k - 1].0.from == pos || wires[k - 1].0.to == pos {
        Some(wires[k - 1].1)
    } else {
        last_wire_at(wires, pos, k - 1)
    }
}

proof fn lemma_last_wire_member(wires: Seq<(Wire, NexusHandle)>, pos: Point, k: int)
    requires
        0 <= k <= wires.len(),
    ensures
        last_wire_at(wires, pos, k) matches Some(nx) ==> exists|j: int|
            0 <= j < wires.len() && (#[trigger] wires[j]).1 == nx,
    decreases k,
{
    if k > 0 {
        if wires[k - 1].0.from == pos || wires[k - 1].0.to == pos {
            assert(wires[k - 1].1 == wires[k - 1].1);
        } else {
            lemma_last_wire_member(wires, pos, k - 1);
        }
    }
}

/// What a port is assigned after the connect pass: the nexus of the last
/// wire ending at its pin position, or its previous assignment if no wire
/// ends there (or the pin position overflows the grid).
pub open spec fn connect_target(
    wires: Seq<(Wire, NexusHandle)>,
    prior: Option<NexusHandle>,
    poso: Option<Point>,
) -> Option<NexusHandle> {
    match poso {
        Some(pos) => match last_wire_at(wires, pos, wires.len() as int) {
            Some(nx) => Some(nx),
            None => prior,
        },
        None => prior,
    }
}

/// The pin position of input port `p` of a placed node.
pub open spec fn input_pos<C: CircuitComponent>(
    n: crate::graph::GraphNode<C, (Point, Direction)>,
    p: int,
) -> Option<Point> {
    port_pos(n.meta, n.component.spec_inputs()[p])
}

/// The pin position of output port `p` of a placed node.
pub open spec fn output_pos<C: CircuitComponent>(
    n: crate::graph::GraphNode<C, (Point, Direction)>,
    p: int,
) -> Option<Point> {
    port_pos(n.meta, n.component.spec_outputs()[p])
}

/// One node after the connect pass.
pub open spec fn node_connected<C: CircuitComponent>(
    n: crate::graph::GraphNode<C, (Point, Direction)>,
    n2: crate::graph::GraphNode<C, (Point, Direction)>,
    wires: Seq<(Wire, NexusHandle)>,
) -> bool {
    &&& n2.component == n.component
    &&& n2.meta == n.meta
    &&& n2.inputs@.len() == n.inputs@.len()
    &&& n2.outputs@.len() == n.outputs@.len()
    &&& forall|p: int|
        0 <= p < n.inputs@.len() ==> n2.inputs@[p] == connect_target(
            wires,
            n.inputs@[p],
            input_pos(n, p),
        )
    &&& forall|p: int|
        0 <= p < n.outputs@.len() ==> n2.outputs@[p] == connect_target(
            wires,
            n.outputs@[p],
            output_pos(n, p),
        )
}

/// The whole node table after the connect pass.
pub open spec fn connected_post<C: CircuitComponent>(
    pre: Seq<Option<crate::graph::GraphNode<C, (Point, Direction)>>>,
    post: Seq<Option<crate::graph::GraphNode<C, (Point, Direction)>>>,
    wires: Seq<(Wire, NexusHandle)>,
) -> bool {
    &&& post.len() == pre.len()
    &&& forall|i: int| 0 <= i < pre.len() ==> ((#[trigger] pre[i]) is Some <==> post[i] is Some)
    &&& forall|i: int|
        0 <= i < pre.len() && (#[trigger] pre[i]) is Some ==> node_connected(
            pre[i]->Some_0,
            post[i]->Some_0,
            wires,
        )
}

/// Wire `k`'s body covers an endpoint of `w`.
pub open spec fn wire_hit(wires: Seq<(Wire, NexusHandle)>, k: int, w: Wire) -> bool {
    wire_covers(wires[k].0, w.from) || wire_covers(wires[k].0, w.to)
}

/// Component, metadata and table shapes are preserved; assignments may
/// only have been redirected to `t`.
pub open spec fn node_shape_kept<C, M>(
    n: crate::graph::GraphNode<C, M>,
    n2: crate::graph::GraphNode<C, M>,
    t: NexusHandle,
) -> bool {
    &&& n2.component == n.component
    &&& n2.meta == n.meta
    &&& n2.inputs@.len() == n.inputs@.len()
    &&& n2.outputs@.len() == n.outputs@.len()
    &&& forall|p: int|
        0 <= p < n.inputs@.len() ==> (#[trigger] n2.inputs@[p]) == n.inputs@[p] || n2.inputs@[p]
            == Some(t)
    &&& forall|p: int|
        0 <= p < n.outputs@.len() ==> (#[trigger] n2.outputs@[p]) == n.outputs@[p] || n2.outputs@[p]
            == Some(t)
}

/// Every port whose pin position is a wire endpoint carries that wire's
/// nexus (the last such wire wins).
pub open spec fn ports_follow_wires<C: CircuitComponent>(
    nodes: Seq<Option<crate::graph::GraphNode<C, (Point, Direction)>>>,
    wires: Seq<(Wire, NexusHandle)>,
) -> bool {
    &&& forall|i: int, p: int|
        #![trigger nodes[i]->Some_0.inputs@[p]]
        0 <= i < nodes.len() && nodes[i] is Some && 0 <= p
            < nodes[i]->Some_0.inputs@.len() ==> match input_pos(nodes[i]->Some_0, p) {
            Some(pos) => (last_wire_at(wires, pos, wires.len() as int) matches Some(nx)
                ==> nodes[i]->Some_0.inputs@[p] == Some(nx)),
            None => true,
        }
    &&& forall|i: int, p: int|
        #![trigger nodes[i]->Some_0.outputs@[p]]
        0 <= i < nodes.len() && nodes[i] is Some && 0 <= p
            < nodes[i]->Some_0.outputs@.len() ==> match output_pos(nodes[i]->Some_0, p) {
            Some(pos) => (last_wire_at(wires, pos, wires.len() as int) matches Some(nx)
                ==> nodes[i]->Some_0.outputs@[p] == Some(nx)),
            None => true,
        }
}

/// `post` is `pre` possibly extended with copies of `index` at the end.
pub open spec fn zone_extended(pre: Zone, post: Zone, index: usize) -> bool {
    &&& post.spec_nodes().len() >= pre.spec_nodes().len()
    &&& forall|j: int|
        0 <= j < pre.spec_nodes().len() ==> (#[trigger] post.spec_nodes()[j]) == pre.spec_nodes()[j]
    &&& forall|j: int|
        pre.spec_nodes().len() <= j < post.spec_nodes().len() ==> (#[trigger] post.spec_nodes()[j])
            == index
}

/// An endpoint of the later wire lies on the body of the earlier one: the
/// relation wire insertion inspects.
pub open spec fn endpoint_on(earlier: Wire, later: Wire) -> bool {
    wire_covers(earlier, later.from) || wire_covers(earlier, later.to)
}

/// Wires `j` and `k` are directly linked: the later of the two has an
/// endpoint on the body of the earlier.
pub open spec fn wires_linked(ws: Seq<(Wire, NexusHandle)>, j: int, k: int) -> bool {
    &&& 0 <= j < ws.len()
    &&& 0 <= k < ws.len()
    &&& if j < k {
        endpoint_on(ws[j].0, ws[k].0)
    } else if k < j {
        endpoint_on(ws[k].0, ws[j].0)
    } else {
        true
    }
}

/// Consecutive entries of the path are linked wires.
pub open spec fn wire_path_ok(ws: Seq<(Wire, NexusHandle)>, path: Seq<int>) -> bool {
    &&& path.len() >= 1
    &&& forall|t: int| 0 <= t < path.len() ==> 0 <= #[trigger] path[t] < ws.len()
    &&& forall|t: int| 0 <= t < path.len() - 1 ==> wires_linked(ws, #[trigger] path[t], path[t + 1])
}

/// Wire `k` is reachable from wire `j` through a chain of endpoint-shared
/// wires.
pub open spec fn wires_reach(ws: Seq<(Wire, NexusHandle)>, j: int, k: int) -> bool {
    exists|path: Seq<int>|
        #[trigger] wire_path_ok(ws, path) && path[0] == j && path[path.len() - 1] == k
}

/// Connectivity: the nexus partition of the wires coincides with
/// reachability through endpoint-shared chains — a wire's nexus groups
/// exactly the wires reachable from it.
pub open spec fn connectivity_ok(ws: Seq<(Wire, NexusHandle)>) -> bool {
    forall|j: int, k: int|
        0 <= j < ws.len() && 0 <= k < ws.len() ==> ((#[trigger] ws[j]).1 == (#[trigger] ws[k]).1
            <==> wires_reach(ws, j, k))
}

proof fn lemma_reach_refl(ws: Seq<(Wire, NexusHandle)>, j: int)
    requires
        0 <= j < ws.len(),
    ensures
        wires_reach(ws, j, j),
{
    let path = seq![j];
    assert(wire_path_ok(ws, path));
    assert(path[0] == j && path[path.len() - 1] == j);
}

proof fn lemma_reach_sym(ws: Seq<(Wire, NexusHandle)>, j: int, k: int)
    requires
        wires_reach(ws, j, k),
    ensures
        wires_reach(ws, k, j),
{
    let path = choose|path: Seq<int>|
        #[trigger] wire_path_ok(ws, path) && path[0] == j && path[path.len() - 1] == k;
    let rev = Seq::new(path.len(), |t: int| path[path.len() - 1 - t]);
    assert(wire_path_ok(ws, rev)) by {
        assert forall|t: int| 0 <= t < rev.len() - 1 implies wires_linked(
            ws,
            #[trigger] rev[t],
            rev[t + 1],
        ) by {
            assert(wires_linked(ws, path[path.len() - 2 - t], path[path.len() - 1 - t]));
        }
    }
    assert(rev[0] == k && rev[rev.len() - 1] == j);
}

proof fn lemma_reach_trans(ws: Seq<(Wire, NexusHandle)>, i: int, j: int, k: int)
    requires
        wires_reach(ws, i, j),
        wires_reach(ws, j, k),
    ensures
        wires_reach(ws, i, k),
{
    let p1 = choose|path: Seq<int>|
        #[trigger] wire_path_ok(ws, path) && path[0] == i && path[path.len() - 1] == j;
    let p2 = choose|path: Seq<int>|
        #[trigger] wire_path_ok(ws, path) && path[0] == j && path[path.len() - 1] == k;
    let joined = p1 + p2.drop_first();
    assert(wire_path_ok(ws, joined)) by {
        assert forall|t: int| 0 <= t < joined.len() implies 0 <= #[trigger] joined[t]
            < ws.len() by {
            if t < p1.len() {
                assert(joined[t] == p1[t]);
            } else {
                assert(joined[t] == p2[t - p1.len() + 1]);
            }
        }
        assert forall|t: int| 0 <= t < joined.len() - 1 implies wires_linked(
            ws,
            #[trigger] joined[t],
            joined[t + 1],
        ) by {
            if t + 1 < p1.len() {
                assert(joined[t] == p1[t] && joined[t + 1] == p1[t + 1]);
            } else if t + 1 == p1.len() {
                assert(joined[t] == p1[p1.len() - 1]);
                if p2.len() > 1 {
                    assert(joined[t + 1] == p2[1]);
                    assert(wires_linked(ws, p2[0], p2[1]));
                }
            } else {
                assert(joined[t] == p2[t - p1.len() + 1]);
                assert(joined[t + 1] == p2[t - p1.len() + 2]);
                assert(wires_linked(ws, p2[t - p1.len() + 1], p2[t - p1.len() + 2]));
            }
        }
    }
    assert(joined[0] == i);
    assert(joined[joined.len() - 1] == k) by {
        if p2.len() == 1 {
            assert(joined =~= p1);
        } else {
            assert(joined[joined.len() - 1] == p2[p2.len() - 1]);
        }
    }
}

/// Links among the first `len0` wires only depend on their geometry, so a
/// path in the old wire list is a path in the new one.
proof fn lemma_reach_lift(
    ws0: Seq<(Wire, NexusHandle)>,
    ws1: Seq<(Wire, NexusHandle)>,
    j: int,
    k: int,
)
    requires
        wires_reach(ws0, j, k),
        ws1.len() >= ws0.len(),
        forall|x: int| 0 <= x < ws0.len() ==> (#[trigger] ws1[x]).0 == ws0[x].0,
    ensures
        wires_reach(ws1, j, k),
{
    let path = choose|path: Seq<int>|
        #[trigger] wire_path_ok(ws0, path) && path[0] == j && path[path.len() - 1] == k;
    assert(wire_path_ok(ws1, path)) by {
        assert forall|t: int| 0 <= t < path.len() - 1 implies wires_linked(
            ws1,
            #[trigger] path[t],
            path[t + 1],
        ) by {
            assert(wires_linked(ws0, path[t], path[t + 1]));
        }
    }
}

/// Along a path, if every linked pair shares a nexus, the ends share one.
proof fn lemma_path_same_nexus(ws: Seq<(Wire, NexusHandle)>, path: Seq<int>)
    requires
        wire_path_ok(ws, path),
        forall|a: int, b: int|
            wires_linked(ws, a, b) ==> (#[trigger] ws[a]).1 == (#[trigger] ws[b]).1,
    ensures
        ws[path[0]].1 == ws[path[path.len() - 1]].1,
    decreases path.len(),
{
    if path.len() > 1 {
        let rest = path.drop_first();
        assert(wire_path_ok(ws, rest)) by {
            assert forall|t: int| 0 <= t < rest.len() - 1 implies wires_linked(
                ws,
                #[trigger] rest[t],
                rest[t + 1],
            ) by {
                assert(wires_linked(ws, path[t + 1], path[t + 2]));
            }
        }
        lemma_path_same_nexus(ws, rest);
        assert(wires_linked(ws, path[0], path[1]));
    }
}

/// Nexus `i`'s userdata lists exactly the wires that belong to it, each
/// once.
pub open spec fn nexus_userdata_ok<C: CircuitComponent>(
    g: Graph<C, (Point, Direction), Vec<usize>>,
    ws: Seq<(Wire, NexusHandle)>,
    i: int,
) -> bool {
    let u = g.spec_nexuses()[i]->Some_0.userdata;
    &&& u@.no_duplicates()
    &&& forall|k: usize| #[trigger] u@.contains(k) <==> (k < ws.len() && ws[k as int].1.0.0 == i)
}

/// Every live nexus's userdata is the exact record of its wires.
pub open spec fn userdata_ok<C: CircuitComponent>(
    g: Graph<C, (Point, Direction), Vec<usize>>,
    ws: Seq<(Wire, NexusHandle)>,
) -> bool {
    forall|i: int| g.nexus_live(i) ==> #[trigger] nexus_userdata_ok(g, ws, i)
}

/// The relation one `add_wire` call establishes between the old and new
/// wire lists: the list grew by the new wire, wires whose bodies cover its
/// endpoints were merged into its nexus (and only whole groups containing
/// such a wire were), and a fresh nexus was used when nothing was hit.
pub open spec fn wires_extended(
    ws0: Seq<(Wire, NexusHandle)>,
    ws1: Seq<(Wire, NexusHandle)>,
    wire: Wire,
) -> bool {
    let n = ws0.len() as int;
    let t = ws1[n].1;
    &&& ws1.len() == ws0.len() + 1
    &&& forall|k: int| 0 <= k < ws0.len() ==> (#[trigger] ws1[k]).0 == ws0[k].0
    &&& ws1[n].0 == wire
    &&& forall|k: int|
        0 <= k < ws0.len() && wire_hit(ws0, k, wire) ==> (#[trigger] ws1[k]).1 == ws1[ws0.len() as int].1
    &&& forall|k: int|
        0 <= k < ws0.len() ==> (#[trigger] ws1[k]).1 == ws0[k].1 || ws1[k].1 == ws1[ws0.len() as int].1
    &&& forall|j: int, k: int|
        0 <= j < ws0.len() && 0 <= k < ws0.len() && ws0[j].1 == ws0[k].1 ==> (#[trigger] ws1[j]).1
            == (#[trigger] ws1[k]).1
    &&& forall|k: int|
        0 <= k < ws0.len() && (#[trigger] ws1[k]).1 == ws1[ws0.len() as int].1 && ws0[k].1
            != ws1[ws0.len() as int].1 ==> exists|j: int|
            0 <= j < ws0.len() && wire_hit(ws0, j, wire) && ws0[j].1 == ws0[k].1
    &&& ((exists|k: int| 0 <= k < ws0.len() && wire_hit(ws0, k, wire)) ==> exists|j: int|
        0 <= j < ws0.len() && wire_hit(ws0, j, wire) && ws0[j].1 == ws1[ws0.len() as int].1)
    &&& ((forall|k: int| 0 <= k < ws0.len() ==> !wire_hit(ws0, k, wire)) ==> forall|k: int|
        0 <= k < ws0.len() ==> (#[trigger] ws1[k]).1 == ws0[k].1 && ws0[k].1
            != ws1[ws0.len() as int].1)
}

/// Every wire merged into the new wire's nexus reaches the new wire.
#[verifier::spinoff_prover]
proof fn lemma_merged_reach_new(ws0: Seq<(Wire, NexusHandle)>, ws1: Seq<(Wire, NexusHandle)>, wire: Wire)
    requires
        connectivity_ok(ws0),
        wires_extended(ws0, ws1, wire),
    ensures
        forall|k: int|
            0 <= k < ws0.len() && (#[trigger] ws1[k]).1 == ws1[ws0.len() as int].1
                ==> wires_reach(ws1, k, ws0.len() as int),
{
    let n = ws0.len() as int;
    let t = ws1[n].1;
    assert forall|k: int|
        0 <= k < n && (#[trigger] ws1[k]).1 == t implies wires_reach(ws1, k, n) by {
        let j = if ws0[k].1 == t {
            if !(exists|j: int| 0 <= j < n && #[trigger] wire_hit(ws0, j, wire)) {
                assert(forall|j: int| 0 <= j < n ==> !(#[trigger] wire_hit(ws0, j, wire)));
                assert(ws0[k].1 != t);
                assert(false);
            }
            choose|j: int| 0 <= j < n && wire_hit(ws0, j, wire) && ws0[j].1 == t
        } else {
            choose|j: int| 0 <= j < n && wire_hit(ws0, j, wire) && ws0[j].1 == ws0[k].1
        };
        assert(wires_reach(ws0, k, j));
        lemma_reach_lift(ws0, ws1, k, j);
        assert(wires_linked(ws1, j, n)) by {
            assert(endpoint_on(ws1[j].0, wire));
        }
        assert(wires_reach(ws1, j, n)) by {
            let path = seq![j, n];
            assert(wire_path_ok(ws1, path));
        }
        lemma_reach_trans(ws1, k, j, n);
    }
}

/// Directly linked wires of the new list share a nexus.
#[verifier::spinoff_prover]
proof fn lemma_linked_share_nexus(ws0: Seq<(Wire, NexusHandle)>, ws1: Seq<(Wire, NexusHandle)>, wire: Wire)
    requires
        connectivity_ok(ws0),
        wires_extended(ws0, ws1, wire),
    ensures
        forall|a: int, b: int|
            wires_linked(ws1, a, b) ==> (#[trigger] ws1[a]).1 == (#[trigger] ws1[b]).1,
{
    let n = ws0.len() as int;
    assert forall|a: int, b: int|
        wires_linked(ws1, a, b) implies (#[trigger] ws1[a]).1 == (#[trigger] ws1[b]).1 by {
        if a < n && b < n {
            if a != b {
                assert(wires_linked(ws0, a, b));
                assert(wires_reach(ws0, a, b)) by {
                    let path = seq![a, b];
                    assert(wire_path_ok(ws0, path));
                }
                assert(ws0[a].1 == ws0[b].1);
            }
        } else if a == n && b < n {
            assert(endpoint_on(ws1[b].0, wire));
            assert(wire_hit(ws0, b, wire));
        } else if b == n && a < n {
            assert(endpoint_on(ws1[a].0, wire));
            assert(wire_hit(ws0, a, wire));
        }
    }
}

/// Connectivity is preserved by one wire insertion: given the relation
/// [`Circuit::add_wire`] establishes between the old and new wire lists,
/// the nexus partition of the new list again coincides with reachability.
/// Together with the empty base case this shows the connectivity invariant
/// for every circuit built by adding wires in order.
#[verifier::spinoff_prover]
pub proof fn lemma_add_wire_connectivity(
    ws0: Seq<(Wire, NexusHandle)>,
    ws1: Seq<(Wire, NexusHandle)>,
    wire: Wire,
)
    requires
        connectivity_ok(ws0),
        wires_extended(ws0, ws1, wire),
    ensures
        connectivity_ok(ws1),
{
    let n = ws0.len() as int;
    let t = ws1[n].1;
    lemma_merged_reach_new(ws0, ws1, wire);
    lemma_linked_share_nexus(ws0, ws1, wire);
    assert forall|j: int, k: int|
        0 <= j < ws1.len() && 0 <= k < ws1.len() implies ((#[trigger] ws1[j]).1 == (
    #[trigger] ws1[k]).1 <==> wires_reach(ws1, j, k)) by {
        // Reachability implies a shared nexus: walk the path.
        if wires_reach(ws1, j, k) {
            let path = choose|path: Seq<int>|
                #[trigger] wire_path_ok(ws1, path) && path[0] == j && path[path.len() - 1] == k;
            lemma_path_same_nexus(ws1, path);
        }
        // A shared nexus implies reachability.
        if ws1[j].1 == ws1[k].1 {
            if j == k {
                lemma_reach_refl(ws1, j);
            } else if j < n && k < n {
                if ws1[j].1 == t && ws0[j].1 != ws0[k].1 {
                    lemma_reach_sym(ws1, k, n);
                    lemma_reach_trans(ws1, j, n, k);
                } else if ws1[j].1 != t {
                    assert(ws1[j].1 == ws0[j].1 && ws1[k].1 == ws0[k].1);
                    assert(wires_reach(ws0, j, k));
                    lemma_reach_lift(ws0, ws1, j, k);
                } else {
                    assert(wires_reach(ws0, j, k));
                    lemma_reach_lift(ws0, ws1, j, k);
                }
            } else if j == n && k < n {
                lemma_reach_sym(ws1, k, n);
            } else if k == n && j < n {
            } else {
                lemma_reach_refl(ws1, j);
            }
        }
    }
}

/// A collection of interconnected wires and components.
pub struct Circuit<C> where C: CircuitComponent {
    /// Spatial index: 1024 x 1024 zones of 64 x 64 grid points each.
    zones: Vec<Zone>,
    /// All wires in this circuit, each with the nexus it belongs to.
    wires: Vec<(Wire, NexusHandle)>,
    /// A graph connecting all nodes. Used for program generation.
    graph: Graph<C, (Point, Direction), Vec<usize>>,
}

impl<C> Circuit<C> where C: CircuitComponent {
    pub closed spec fn spec_wires(&self) -> Seq<(Wire, NexusHandle)> {
        self.wires@
    }

    pub closed spec fn spec_graph(&self) -> Graph<C, (Point, Direction), Vec<usize>> {
        self.graph
    }

    pub closed spec fn spec_zones(&self) -> Seq<Zone> {
        self.zones@
    }

    /// The zone grid is fully allocated; every zone entry is a wire index;
    /// every wire is registered in every zone its bounding box overlaps;
    /// every wire's nexus is live; the graph is well formed and external
    /// indices fit the boundary maps.
    pub open spec fn wf(&self) -> bool {
        &&& self.spec_graph().wf()
        &&& ext_indices_ok(self.spec_graph().spec_nodes())
        &&& self.spec_zones().len() == ZONE_COUNT
        &&& forall|zi: int, j: int|
            0 <= zi < self.spec_zones().len() && 0 <= j < self.spec_zones()[zi].spec_nodes().len()
                ==> (#[trigger] self.spec_zones()[zi].spec_nodes()[j]) < self.spec_wires().len()
        &&& forall|k: int, zi: int|
            0 <= k < self.spec_wires().len() && 0 <= zi < ZONE_COUNT && zone_overlaps(
                spec_aabb((#[trigger] self.spec_wires()[k]).0.from, self.spec_wires()[k].0.to),
                zi,
            ) ==> (#[trigger] self.spec_zones()[zi].spec_nodes()).contains(k as usize)
        &&& forall|k: int|
            0 <= k < self.spec_wires().len() ==> self.spec_graph().nexus_live(
                (#[trigger] self.spec_wires()[k]).1.0.0 as int,
            )
        &&& connectivity_ok(self.spec_wires())
        &&& userdata_ok(self.spec_graph(), self.spec_wires())
    }

    pub fn new() -> (r: Self)
        ensures
            r.wf(),
            r.spec_wires() =~= Seq::<(Wire, NexusHandle)>::empty(),
            r.spec_graph().spec_nodes() =~= Seq::<
                Option<crate::graph::GraphNode<C, (Point, Direction)>>,
            >::empty(),
            r.spec_graph().spec_nexuses() =~= Seq::<
                Option<crate::graph::Nexus<Vec<usize>>>,
            >::empty(),
    {
        let mut zones: Vec<Zone> = Vec::new();
        let mut i: usize = 0;
        while i < ZONE_COUNT
            invariant
                i <= ZONE_COUNT,
                zones@.len() == i,
                forall|zi: int|
                    0 <= zi < i ==> (#[trigger] zones@[zi]).spec_nodes() =~= Seq::<
                        usize,
                    >::empty(),
            decreases ZONE_COUNT - i,
        {
            zones.push(Zone::new());
            i = i + 1;
        }
        Circuit { zones, wires: Vec::new(), graph: Graph::new() }
    }

    /// Insert a component at a position with a facing. Ports are connected
    /// by the next wire whose endpoint coincides with one of the
    /// component's pin positions, or when the circuit is compiled.
    pub fn add_component(&mut self, component: C, position: Point, direction: Direction) -> (r:
        usize)
        requires
            old(self).wf(),
            component.spec_external_input() matches Some(idx) ==> idx < usize::MAX,
            component.spec_external_output() matches Some(idx) ==> idx < usize::MAX,
        ensures
            final(self).wf(),
            final(self).spec_wires() == old(self).spec_wires(),
            final(self).spec_zones() == old(self).spec_zones(),
            final(self).spec_graph().spec_nexuses() == old(self).spec_graph().spec_nexuses(),
            r < final(self).spec_graph().spec_nodes().len(),
            final(self).spec_graph().spec_nodes()[r as int] matches Some(n) && n.component
                == component && n.meta == (position, direction) && n.inputs@ =~= Seq::new(
                component.spec_input_count() as nat,
                |p: int| None::<NexusHandle>,
            ) && n.outputs@ =~= Seq::new(
                component.spec_output_count() as nat,
                |p: int| None::<NexusHandle>,
            ),
            forall|j: int|
                0 <= j < old(self).spec_graph().spec_nodes().len() && j != r ==> final(self).spec_graph().spec_nodes()[j] == old(self).spec_graph().spec_nodes()[j],
            old(self).spec_graph().spec_nodes().len() <= final(self).spec_graph().spec_nodes().len(),
    {
        let handle = self.graph.add(component, (position, direction));
        proof {
            assert forall|i: int|
                0 <= i < self.spec_graph().spec_nodes().len() && (
            #[trigger] self.spec_graph().spec_nodes()[i]) is Some implies {
                &&& (self.spec_graph().spec_nodes()[i]->Some_0.component.spec_external_input()
                    matches Some(idx) ==> idx < usize::MAX)
                &&& (self.spec_graph().spec_nodes()[i]->Some_0.component.spec_external_output()
                    matches Some(idx) ==> idx < usize::MAX)
            } by {
                if i != handle.0.0 as int {
                    assert(old(self).spec_graph().spec_nodes()[i] == self.spec_graph().spec_nodes()[i]);
                }
            }
            assert(self.spec_wires() == old(self).spec_wires());
            assert(self.spec_zones() == old(self).spec_zones());
            assert forall|k: int|
                0 <= k < self.spec_wires().len() implies self.spec_graph().nexus_live(
                (#[trigger] self.spec_wires()[k]).1.0.0 as int,
            ) by {
                assert(old(self).spec_graph().nexus_live(old(self).spec_wires()[k].1.0.0 as int));
                assert(self.spec_graph().spec_nexuses() == old(self).spec_graph().spec_nexuses());
            }
            assert forall|i: int| self.spec_graph().nexus_live(i) implies #[trigger] nexus_userdata_ok(
                self.spec_graph(),
                self.spec_wires(),
                i,
            ) by {
                assert(nexus_userdata_ok(old(self).spec_graph(), old(self).spec_wires(), i));
                assert(self.spec_graph().spec_nexuses() == old(self).spec_graph().spec_nexuses());
            }
        }
        handle.into_raw()
    }

    /// Number of wires added so far.
    pub fn wire_count(&self) -> (r: usize)
        ensures
            r == self.spec_wires().len(),
    {
        self.wires.len()
    }

    /// The nexus a wire belongs to.
    pub fn wire_nexus(&self, index: usize) -> (r: Option<NexusHandle>)
        ensures
            match r {
                Some(nx) => index < self.spec_wires().len() && nx == self.spec_wires()[index as int].1,
                None => index >= self.spec_wires().len(),
            },
    {
        if index < self.wires.len() {
            Some(self.wires[index].1)
        } else {
            None
        }
    }

    /// The wire indices recorded on a nexus. By [`userdata_ok`] in
    /// [`Circuit::wf`] these are exactly the wires belonging to it, each
    /// once.
    pub fn nexus_wires(&self, nexus: NexusHandle) -> (r: Option<&Vec<usize>>)
        ensures
            match r {
                Some(u) => self.spec_graph().nexus_live(nexus.0.0 as int) && self.spec_graph().spec_nexuses()[nexus.0.0 as int]->Some_0.userdata
                    == *u,
                None => !self.spec_graph().nexus_live(nexus.0.0 as int),
            },
    {
        match self.graph.nexus(nexus) {
            Some(nx) => Some(&nx.userdata),
            None => None,
        }
    }

    /// The nexus of the last wire with an endpoint at `pos`, if any.
    fn last_wire_endpoint_at(&self, pos: Point) -> (r: Option<NexusHandle>)
        ensures
            r == last_wire_at(self.spec_wires(), pos, self.spec_wires().len() as int),
    {
        let mut k = self.wires.len();
        while k > 0
            invariant
                k <= self.spec_wires().len(),
                last_wire_at(self.spec_wires(), pos, self.spec_wires().len() as int)
                    == last_wire_at(self.spec_wires(), pos, k as int),
            decreases k,
        {
            k = k - 1;
            let (w, nx) = self.wires[k];
            if w.from == pos || w.to == pos {
                return Some(nx);
            }
        }
        None
    }

    /// All wires whose bodies cover the position, found through the zone
    /// grid.
    #[verifier::loop_isolation(false)]
    fn intersect_point(&self, position: Point) -> (r: Vec<usize>)
        requires
            self.wf(),
        ensures
            forall|j: int|
                0 <= j < r@.len() ==> (#[trigger] r@[j]) < self.spec_wires().len() && wire_covers(
                    self.spec_wires()[r@[j] as int].0,
                    position,
                ),
            forall|k: int|
                0 <= k < self.spec_wires().len() && wire_covers(
                    (#[trigger] self.spec_wires()[k]).0,
                    position,
                ) ==> r@.contains(k as usize),
    {
        let wire_count = self.wires.len();
        let zx = (position.x as usize) / 64;
        let zy = (position.y as usize) / 64;
        let zi = zy * 1024 + zx;
        proof {
            assert(zx < 1024 && zy < 1024);
            assert(zi < ZONE_COUNT);
        }
        let r = self.zones[zi].intersect_point(&self.wires, position);
        proof {
            assert forall|k: int|
                0 <= k < self.spec_wires().len() && wire_covers(
                    (#[trigger] self.spec_wires()[k]).0,
                    position,
                ) implies r@.contains(k as usize) by {
                let w = self.spec_wires()[k].0;
                let bb = spec_aabb(w.from, w.to);
                assert(spec_aabb_contains(bb, position));
                assert(zone_overlaps(bb, zi as int)) by {
                    assert(zi as int % 1024 == zx && zi as int / 1024 == zy) by (nonlinear_arith)
                        requires
                            zi == zy * 1024 + zx,
                            0 <= zx < 1024,
                            0 <= zy < 1024,
                    ;
                    assert(bb.min.x as int / 64 <= zx as int) by (nonlinear_arith)
                        requires
                            bb.min.x <= position.x,
                            zx == position.x as int / 64,
                    ;
                    assert(zx as int <= bb.max.x as int / 64) by (nonlinear_arith)
                        requires
                            position.x <= bb.max.x,
                            zx == position.x as int / 64,
                    ;
                    assert(bb.min.y as int / 64 <= zy as int) by (nonlinear_arith)
                        requires
                            bb.min.y <= position.y,
                            zy == position.y as int / 64,
                    ;
                    assert(zy as int <= bb.max.y as int / 64) by (nonlinear_arith)
                        requires
                            position.y <= bb.max.y,
                            zy == position.y as int / 64,
                    ;
                }
                assert(self.spec_zones()[zi as int].spec_nodes().contains(k as usize));
            }
        }
        r
    }

    /// Add a wire. If its endpoints lie on existing wires, the wire joins
    /// their nexus; nexuses bridged by the new wire are merged (the lowest
    /// handle is kept); otherwise a fresh nexus is created. Component pins
    /// at wire endpoints are then (re)connected.
    ///
    /// Well-formedness carries the bookkeeping: by [`userdata_ok`] in
    /// [`Circuit::wf`], the target nexus's userdata afterwards lists exactly
    /// its wires — the merged groups plus the new index — and by the frame
    /// clause below every other surviving nexus is untouched.
    #[verifier::loop_isolation(false)]
    #[verifier::rlimit(100)]
    #[verifier::spinoff_prover]
    pub fn add_wire(&mut self, wire: Wire)
        requires
            old(self).wf(),
        ensures
            final(self).wf(),
            forall|i: int|
                0 <= i < old(self).spec_graph().spec_nexuses().len() && i != final(self).spec_wires()[old(self).spec_wires().len() as int].1.0.0 && final(self).spec_graph().nexus_live(i) ==> (
            #[trigger] final(self).spec_graph().spec_nexuses()[i]) == old(self).spec_graph().spec_nexuses()[i],
            wires_extended(old(self).spec_wires(), final(self).spec_wires(), wire),
            ports_follow_wires(final(self).spec_graph().spec_nodes(), final(self).spec_wires()),
    {
        let ghost ws0 = self.spec_wires();
        let index = self.wires.len();
        let mut hits = self.intersect_point(wire.from);
        let ghost ha = hits@;
        let mut hits_b = self.intersect_point(wire.to);
        let ghost hb = hits_b@;
        hits.append(&mut hits_b);
        proof {
            assert(hits@ == ha + hb);
            assert forall|q: int|
                0 <= q < hits@.len() implies (#[trigger] hits@[q]) < ws0.len() && wire_hit(
                ws0,
                hits@[q] as int,
                wire,
            ) by {
                if q < ha.len() {
                    assert(hits@[q] == ha[q]);
                } else {
                    assert(hits@[q] == hb[q - ha.len()]);
                }
            }
            assert forall|k: int|
                0 <= k < ws0.len() && wire_hit(ws0, k, wire) implies hits@.contains(
                k as usize,
            ) by {
                if wire_covers(ws0[k].0, wire.from) {
                    assert(ha.contains(k as usize));
                    let q = choose|q: int| 0 <= q < ha.len() && ha[q] == k as usize;
                    assert(hits@[q] == k as usize);
                } else {
                    assert(hb.contains(k as usize));
                    let q = choose|q: int| 0 <= q < hb.len() && hb[q] == k as usize;
                    assert(hits@[ha.len() + q] == k as usize);
                }
            }
        }
        let t: NexusHandle;
        if hits.len() == 0 {
            t = self.graph.new_nexus(Vec::new());
            proof {
                assert forall|k: int| 0 <= k < ws0.len() implies (#[trigger] ws0[k]).1 != t by {
                    assert(old(self).spec_graph().nexus_live(ws0[k].1.0.0 as int));
                }
                assert forall|i: int|
                    self.spec_graph().nexus_live(i) implies #[trigger] nexus_userdata_ok(
                    self.spec_graph(),
                    self.spec_wires(),
                    i,
                ) by {
                    let cur_ws = self.spec_wires();
                    if i == t.0.0 as int {
                        let u = self.spec_graph().spec_nexuses()[i]->Some_0.userdata@;
                        assert(u =~= Seq::<usize>::empty());
                        assert forall|k2: usize| #[trigger] u.contains(k2) <==> (k2 < cur_ws.len()
                            && cur_ws[k2 as int].1.0.0 == i) by {
                            if k2 < cur_ws.len() {
                                assert(cur_ws[k2 as int].1 != t);
                                assert(cur_ws[k2 as int].1.0.0 != t.0.0);
                            }
                        }
                    } else {
                        assert(old(self).spec_graph().nexus_live(i));
                        assert(nexus_userdata_ok(
                            old(self).spec_graph(),
                            old(self).spec_wires(),
                            i,
                        ));
                        assert(self.spec_graph().spec_nexuses()[i] == old(self).spec_graph().spec_nexuses()[i]);
                    }
                }
            }
        } else {
            let mut tm = self.wires[hits[0]].1;
            let mut hh: usize = 1;
            while hh < hits.len()
                invariant
                    1 <= hh <= hits@.len(),
                    exists|q: int| 0 <= q < hits@.len() && tm == (#[trigger] ws0[hits@[q] as int]).1,
                decreases hits@.len() - hh,
            {
                let cand = self.wires[hits[hh]].1;
                if cand.index() < tm.index() {
                    tm = cand;
                }
                hh = hh + 1;
            }
            t = tm;
            let ghost qt = choose|q: int|
                0 <= q < hits@.len() && t == (#[trigger] ws0[hits@[q] as int]).1;
            proof {
                assert(old(self).spec_graph().nexus_live(ws0[hits@[qt] as int].1.0.0 as int));
                assert(wire_hit(ws0, hits@[qt] as int, wire) && ws0[hits@[qt] as int].1 == t);
            }
            let hits_len = hits.len();
            let mut h: usize = 0;
            while h < hits_len
                invariant
                    h <= hits_len,
                    hits_len == hits@.len(),
                    self.spec_graph().wf(),
                    self.spec_zones() == old(self).spec_zones(),
                    self.spec_wires().len() == ws0.len(),
                    forall|k: int|
                        0 <= k < ws0.len() ==> (#[trigger] self.spec_wires()[k]).0 == ws0[k].0,
                    self.spec_graph().nexus_live(t.0.0 as int),
                    forall|k: int|
                        0 <= k < ws0.len() ==> self.spec_graph().nexus_live(
                            (#[trigger] self.spec_wires()[k]).1.0.0 as int,
                        ),
                    forall|q: int|
                        0 <= q < h ==> (#[trigger] self.spec_wires()[hits@[q] as int]).1 == t,
                    forall|k: int|
                        0 <= k < ws0.len() ==> (#[trigger] self.spec_wires()[k]).1 == ws0[k].1
                            || self.spec_wires()[k].1 == t,
                    forall|j: int, k: int|
                        0 <= j < ws0.len() && 0 <= k < ws0.len() && ws0[j].1 == ws0[k].1 ==> (
                        #[trigger] self.spec_wires()[j]).1 == (#[trigger] self.spec_wires()[k]).1,
                    forall|k: int|
                        0 <= k < ws0.len() && (#[trigger] self.spec_wires()[k]).1 == t && ws0[k].1
                            != t ==> exists|j: int|
                            0 <= j < ws0.len() && wire_hit(ws0, j, wire) && ws0[j].1 == ws0[k].1,
                    self.spec_graph().spec_nodes().len() == old(self).spec_graph().spec_nodes().len(),
                    forall|j: int|
                        0 <= j < self.spec_graph().spec_nodes().len() ==> ((#[trigger] old(self).spec_graph().spec_nodes()[j]) is Some
                            <==> self.spec_graph().spec_nodes()[j] is Some),
                    forall|j: int|
                        0 <= j < self.spec_graph().spec_nodes().len() && (#[trigger] old(self).spec_graph().spec_nodes()[j]) is Some ==> node_shape_kept(
                            old(self).spec_graph().spec_nodes()[j]->Some_0,
                            self.spec_graph().spec_nodes()[j]->Some_0,
                            t,
                        ),
                    ext_indices_ok(self.spec_graph().spec_nodes()),
                    userdata_ok(self.spec_graph(), self.spec_wires()),
                    self.spec_graph().spec_nexuses().len() == old(self).spec_graph().spec_nexuses().len(),
                    forall|i: int|
                        0 <= i < old(self).spec_graph().spec_nexuses().len() && i != t.0.0
                            && self.spec_graph().nexus_live(i) ==> (
                        #[trigger] self.spec_graph().spec_nexuses()[i]) == old(self).spec_graph().spec_nexuses()[i],
                decreases hits_len - h,
            {
                let b = self.wires[hits[h]].1;
                if b.index() != t.index() {
                    let ghost pre_w = self.spec_wires();
                    let ghost pre_n = self.spec_graph().spec_nodes();
                    let ghost pre_nx = self.spec_graph().spec_nexuses();
                    let ghost g_pre = self.spec_graph();
                    proof {
                        assert(self.spec_wires()[hits@[h as int] as int].1 == b);
                        assert(self.spec_graph().nexus_live(b.0.0 as int));
                        assert(b.0.0 != t.0.0);
                    }
                    self.graph.merge_nexuses(t, b);
                    let ghost g_mid = self.spec_graph();
                    let wl = self.wires.len();
                    let mut k: usize = 0;
                    while k < wl
                        invariant
                            k <= wl,
                            wl == ws0.len(),
                            self.spec_graph() == g_mid,
                            self.spec_zones() == old(self).spec_zones(),
                            self.spec_wires().len() == ws0.len(),
                            forall|j: int|
                                0 <= j < ws0.len() ==> (#[trigger] self.spec_wires()[j]).0
                                    == pre_w[j].0,
                            forall|j: int|
                                0 <= j < k ==> (#[trigger] self.spec_wires()[j]).1 == (if pre_w[j].1
                                    == b {
                                    t
                                } else {
                                    pre_w[j].1
                                }),
                            forall|j: int|
                                k <= j < ws0.len() ==> (#[trigger] self.spec_wires()[j]).1
                                    == pre_w[j].1,
                        decreases wl - k,
                    {
                        if self.wires[k].1.index() == b.index() {
                            let w0 = self.wires[k].0;
                            self.wires[k] = (w0, t);
                        }
                        k = k + 1;
                    }
                    proof {
                        assert forall|j: int|
                            0 <= j < ws0.len() implies self.spec_graph().nexus_live(
                            (#[trigger] self.spec_wires()[j]).1.0.0 as int,
                        ) by {
                            let x = self.spec_wires()[j].1;
                            assert(x != b);
                            if x == t {
                                assert(self.spec_graph().spec_nexuses()[t.0.0 as int] is Some);
                            } else {
                                assert(pre_w[j].1 == x);
                                assert(pre_nx[x.0.0 as int] is Some);
                                assert(self.spec_graph().spec_nexuses()[x.0.0 as int] == pre_nx[x.0.0 as int]);
                            }
                        }
                        assert forall|j: int|
                            0 <= j < self.spec_graph().spec_nodes().len() && (#[trigger] old(self).spec_graph().spec_nodes()[j]) is Some implies node_shape_kept(
                            old(self).spec_graph().spec_nodes()[j]->Some_0,
                            self.spec_graph().spec_nodes()[j]->Some_0,
                            t,
                        ) by {
                            assert(node_shape_kept(
                                old(self).spec_graph().spec_nodes()[j]->Some_0,
                                pre_n[j]->Some_0,
                                t,
                            ));
                            assert(crate::graph::node_replaced(
                                pre_n[j]->Some_0,
                                self.spec_graph().spec_nodes()[j]->Some_0,
                                b,
                                t,
                            ));
                        }
                        assert forall|j: int|
                            0 <= j < self.spec_graph().spec_nodes().len() && (
                        #[trigger] self.spec_graph().spec_nodes()[j]) is Some implies {
                            &&& (self.spec_graph().spec_nodes()[j]->Some_0.component.spec_external_input()
                                matches Some(idx) ==> idx < usize::MAX)
                            &&& (self.spec_graph().spec_nodes()[j]->Some_0.component.spec_external_output()
                                matches Some(idx) ==> idx < usize::MAX)
                        } by {
                            assert(crate::graph::node_replaced(
                                pre_n[j]->Some_0,
                                self.spec_graph().spec_nodes()[j]->Some_0,
                                b,
                                t,
                            ));
                        }
                        assert forall|k2: int|
                            0 <= k2 < ws0.len() && (#[trigger] self.spec_wires()[k2]).1 == t
                                && ws0[k2].1 != t implies exists|j: int|
                            0 <= j < ws0.len() && wire_hit(ws0, j, wire) && ws0[j].1 == ws0[k2].1 by {
                            if pre_w[k2].1 == t {
                            } else {
                                assert(pre_w[k2].1 == b);
                                assert(ws0[k2].1 == b);
                                assert(ws0[hits@[h as int] as int].1 == b);
                                assert(wire_hit(ws0, hits@[h as int] as int, wire));
                            }
                        }
                        assert forall|i: int|
                            self.spec_graph().nexus_live(i) implies #[trigger] nexus_userdata_ok(
                            self.spec_graph(),
                            self.spec_wires(),
                            i,
                        ) by {
                            let cur_nx = self.spec_graph().spec_nexuses();
                            let cur_ws = self.spec_wires();
                            assert(i != b.0.0 as int);
                            if i == t.0.0 as int {
                                assert(nexus_userdata_ok(g_pre, pre_w, i));
                                assert(g_pre.nexus_live(b.0.0 as int));
                                assert(nexus_userdata_ok(g_pre, pre_w, b.0.0 as int));
                                let ut = pre_nx[t.0.0 as int]->Some_0.userdata@;
                                let ub = pre_nx[b.0.0 as int]->Some_0.userdata@;
                                let u = cur_nx[i]->Some_0.userdata@;
                                assert(u == ut + ub);
                                assert forall|x: int, y: int|
                                    0 <= x < y < u.len() implies u[x] != u[y] by {
                                    if x < ut.len() && y >= ut.len() {
                                        assert(u[x] == ut[x] && u[y] == ub[y - ut.len()]);
                                        assert(ut.contains(ut[x]));
                                        assert(ub.contains(ub[y - ut.len()]));
                                        if u[x] == u[y] {
                                            assert(pre_w[u[x] as int].1.0.0 == t.0.0);
                                            assert(pre_w[u[x] as int].1.0.0 == b.0.0);
                                        }
                                    } else if y < ut.len() {
                                        assert(u[x] == ut[x] && u[y] == ut[y]);
                                    } else {
                                        assert(u[x] == ub[x - ut.len()] && u[y] == ub[y
                                            - ut.len()]);
                                    }
                                }
                                assert(u.no_duplicates());
                                assert forall|k2: usize| #[trigger] u.contains(k2) <==> (k2
                                    < cur_ws.len() && cur_ws[k2 as int].1.0.0 == i) by {
                                    if u.contains(k2) {
                                        let q = choose|q: int| 0 <= q < u.len() && u[q] == k2;
                                        if q < ut.len() {
                                            assert(ut[q] == k2);
                                            assert(ut.contains(k2));
                                            assert(pre_w[k2 as int].1.0.0 == t.0.0);
                                            assert(pre_w[k2 as int].1 != b);
                                            assert(cur_ws[k2 as int].1 == pre_w[k2 as int].1);
                                        } else {
                                            assert(ub[q - ut.len()] == k2);
                                            assert(ub.contains(k2));
                                            assert(pre_w[k2 as int].1.0.0 == b.0.0);
                                            assert(pre_w[k2 as int].1 == b);
                                            assert(cur_ws[k2 as int].1 == t);
                                        }
                                    }
                                    if k2 < cur_ws.len() && cur_ws[k2 as int].1.0.0 == i {
                                        if pre_w[k2 as int].1 == b {
                                            assert(ub.contains(k2));
                                            let q = choose|q: int|
                                                0 <= q < ub.len() && ub[q] == k2;
                                            assert(u[ut.len() + q] == k2);
                                            assert(u.contains(k2));
                                        } else {
                                            assert(cur_ws[k2 as int].1 == pre_w[k2 as int].1);
                                            assert(pre_w[k2 as int].1.0.0 == t.0.0);
                                            assert(ut.contains(k2));
                                            let q = choose|q: int|
                                                0 <= q < ut.len() && ut[q] == k2;
                                            assert(u[q] == k2);
                                            assert(u.contains(k2));
                                        }
                                    }
                                }
                            } else {
                                assert(cur_nx[i] == pre_nx[i]);
                                assert(g_pre.nexus_live(i));
                                assert(nexus_userdata_ok(g_pre, pre_w, i));
                                let u = cur_nx[i]->Some_0.userdata@;
                                assert forall|k2: usize| #[trigger] u.contains(k2) <==> (k2
                                    < cur_ws.len() && cur_ws[k2 as int].1.0.0 == i) by {
                                    if k2 < cur_ws.len() {
                                        if pre_w[k2 as int].1 == b {
                                            assert(cur_ws[k2 as int].1 == t);
                                            assert(pre_w[k2 as int].1.0.0 != i);
                                            assert(cur_ws[k2 as int].1.0.0 != i);
                                        } else {
                                            assert(cur_ws[k2 as int].1 == pre_w[k2 as int].1);
                                        }
                                    }
                                }
                            }
                        }
                        assert forall|i: int|
                            0 <= i < old(self).spec_graph().spec_nexuses().len() && i != t.0.0
                                && self.spec_graph().nexus_live(i) implies (
                        #[trigger] self.spec_graph().spec_nexuses()[i]) == old(self).spec_graph().spec_nexuses()[i] by {
                            assert(i != b.0.0 as int);
                            assert(self.spec_graph().spec_nexuses()[i] == pre_nx[i]);
                            assert(g_pre.nexus_live(i));
                        }
                    }
                }
                h = h + 1;
            }
        }
        // Record the wire in its nexus's userdata and in the wire list.
        let ghost g_join = self.spec_graph();
        let ghost ws_join = self.spec_wires();
        match self.graph.nexus_mut(t) {
            Some(nx) => {
                nx.userdata.push(index);
            },
            None => {
                proof {
                    assert(false);
                }
            },
        }
        self.wires.push((wire, t));
        proof {
            assert forall|k: int|
                0 <= k < self.spec_wires().len() implies self.spec_graph().nexus_live(
                (#[trigger] self.spec_wires()[k]).1.0.0 as int,
            ) by {
                assert(self.spec_wires()[self.spec_wires().len() - 1].1 == t);
            }
            assert forall|i: int|
                self.spec_graph().nexus_live(i) implies #[trigger] nexus_userdata_ok(
                self.spec_graph(),
                self.spec_wires(),
                i,
            ) by {
                let cur_nx = self.spec_graph().spec_nexuses();
                let cur_ws = self.spec_wires();
                assert(g_join.nexus_live(i));
                assert(nexus_userdata_ok(g_join, ws_join, i));
                if i == t.0.0 as int {
                    let u0 = g_join.spec_nexuses()[i]->Some_0.userdata@;
                    let u = cur_nx[i]->Some_0.userdata@;
                    assert(u == u0.push(index));
                    assert(!u0.contains(index)) by {
                        if u0.contains(index) {
                            assert(index < ws_join.len());
                        }
                    }
                    assert forall|x: int, y: int| 0 <= x < y < u.len() implies u[x] != u[y] by {
                        if y < u0.len() {
                            assert(u[x] == u0[x] && u[y] == u0[y]);
                        } else {
                            assert(u[y] == index && u[x] == u0[x]);
                            assert(u0.contains(u0[x]));
                        }
                    }
                    assert(u.no_duplicates());
                    assert forall|k2: usize| #[trigger] u.contains(k2) <==> (k2 < cur_ws.len()
                        && cur_ws[k2 as int].1.0.0 == i) by {
                        if u.contains(k2) {
                            let q = choose|q: int| 0 <= q < u.len() && u[q] == k2;
                            if q < u0.len() {
                                assert(u0[q] == k2);
                                assert(u0.contains(k2));
                                assert(cur_ws[k2 as int] == ws_join[k2 as int]);
                            } else {
                                assert(k2 == index);
                                assert(cur_ws[k2 as int].1 == t);
                            }
                        }
                        if k2 < cur_ws.len() && cur_ws[k2 as int].1.0.0 == i {
                            if k2 == index {
                                assert(u[u.len() - 1] == index);
                                assert(u.contains(k2));
                            } else {
                                assert(k2 < ws_join.len());
                                assert(cur_ws[k2 as int] == ws_join[k2 as int]);
                                assert(u0.contains(k2));
                                let q = choose|q: int| 0 <= q < u0.len() && u0[q] == k2;
                                assert(u[q] == k2);
                                assert(u.contains(k2));
                            }
                        }
                    }
                } else {
                    assert(cur_nx[i] == g_join.spec_nexuses()[i]);
                    let u = cur_nx[i]->Some_0.userdata@;
                    assert forall|k2: usize| #[trigger] u.contains(k2) <==> (k2 < cur_ws.len()
                        && cur_ws[k2 as int].1.0.0 == i) by {
                        if k2 < cur_ws.len() {
                            if k2 == index {
                                assert(cur_ws[k2 as int].1 == t);
                                assert(cur_ws[k2 as int].1.0.0 != i);
                            } else {
                                assert(cur_ws[k2 as int] == ws_join[k2 as int]);
                            }
                        }
                        if u.contains(k2) {
                            assert(k2 < ws_join.len());
                        }
                    }
                }
            }
            assert forall|i: int|
                0 <= i < old(self).spec_graph().spec_nexuses().len() && i != t.0.0
                    && self.spec_graph().nexus_live(i) implies (
            #[trigger] self.spec_graph().spec_nexuses()[i]) == old(self).spec_graph().spec_nexuses()[i] by {
                assert(self.spec_graph().spec_nexuses()[i] == g_join.spec_nexuses()[i]);
                assert(g_join.nexus_live(i));
            }
        }
        let ghost mid_wires = self.spec_wires();
        // Register the wire in every zone its bounding box overlaps.
        let bb = wire.aabb();
        let min_zx = (bb.min.x as usize) / 64;
        let max_zx = (bb.max.x as usize) / 64;
        let min_zy = (bb.min.y as usize) / 64;
        let max_zy = (bb.max.y as usize) / 64;
        let ghost zones_mid = self.spec_zones();
        let ghost g_after = self.spec_graph();
        let mut zy = min_zy;
        while zy <= max_zy
            invariant
                min_zy <= zy <= max_zy + 1,
                max_zx < 1024,
                max_zy < 1024,
                self.spec_wires() == mid_wires,
                self.spec_graph() == g_after,
                self.spec_zones().len() == ZONE_COUNT,
                forall|zi: int|
                    0 <= zi < ZONE_COUNT ==> zone_extended(
                        zones_mid[zi],
                        #[trigger] self.spec_zones()[zi],
                        index,
                    ),
                forall|zi: int|
                    0 <= zi < ZONE_COUNT && zone_overlaps(spec_aabb(wire.from, wire.to), zi) && zi
                        / 1024 < zy ==> (#[trigger] self.spec_zones()[zi].spec_nodes()).contains(
                        index,
                    ),
            decreases max_zy + 1 - zy,
        {
            let mut zx = min_zx;
            while zx <= max_zx
                invariant
                    min_zy <= zy <= max_zy,
                    min_zx <= zx <= max_zx + 1,
                    max_zx < 1024,
                    max_zy < 1024,
                    self.spec_wires() == mid_wires,
                    self.spec_graph() == g_after,
                    self.spec_zones().len() == ZONE_COUNT,
                    forall|zi: int|
                        0 <= zi < ZONE_COUNT ==> zone_extended(
                            zones_mid[zi],
                            #[trigger] self.spec_zones()[zi],
                            index,
                        ),
                    forall|zi: int|
                        0 <= zi < ZONE_COUNT && zone_overlaps(spec_aabb(wire.from, wire.to), zi)
                            && (zi / 1024 < zy || (zi / 1024 == zy && zi % 1024 < zx)) ==> (
                        #[trigger] self.spec_zones()[zi].spec_nodes()).contains(index),
                decreases max_zx + 1 - zx,
            {
                let zi = zy * 1024 + zx;
                proof {
                    assert(zi < ZONE_COUNT);
                }
                let ghost zpre = self.spec_zones();
                self.zones[zi].add_wire(index);
                proof {
                    assert(zi as int % 1024 == zx && zi as int / 1024 == zy) by (nonlinear_arith)
                        requires
                            zi == zy * 1024 + zx,
                            0 <= zx < 1024,
                            0 <= zy < 1024,
                    ;
                    assert forall|z2: int|
                        0 <= z2 < ZONE_COUNT implies zone_extended(
                        zones_mid[z2],
                        #[trigger] self.spec_zones()[z2],
                        index,
                    ) by {
                        if z2 != zi {
                            assert(self.spec_zones()[z2] == zpre[z2]);
                        } else {
                            assert(zone_extended(zones_mid[z2], zpre[z2], index));
                            assert(self.spec_zones()[z2].spec_nodes() == zpre[z2].spec_nodes().push(
                                index,
                            ));
                        }
                    }
                    assert(self.spec_zones()[zi as int].spec_nodes().contains(index)) by {
                        let ln = self.spec_zones()[zi as int].spec_nodes().len();
                        assert(self.spec_zones()[zi as int].spec_nodes()[ln - 1] == index);
                    }
                }
                zx = zx + 1;
            }
            zy = zy + 1;
        }
        proof {
            assert forall|zi: int|
                0 <= zi < ZONE_COUNT && zone_overlaps(spec_aabb(wire.from, wire.to), zi) implies (
            #[trigger] self.spec_zones()[zi].spec_nodes()).contains(index) by {
                assert(zi / 1024 <= max_zy);
            }
            // Well-formedness before the connect pass.
            assert forall|zi: int, j: int|
                0 <= zi < self.spec_zones().len() && 0 <= j
                    < self.spec_zones()[zi].spec_nodes().len() implies (
            #[trigger] self.spec_zones()[zi].spec_nodes()[j]) < self.spec_wires().len() by {
                assert(zone_extended(zones_mid[zi], self.spec_zones()[zi], index));
                if j < zones_mid[zi].spec_nodes().len() {
                    assert(zones_mid[zi].spec_nodes()[j] == old(self).spec_zones()[zi].spec_nodes()[j]);
                }
            }
            assert forall|k: int, zi: int|
                0 <= k < self.spec_wires().len() && 0 <= zi < ZONE_COUNT && zone_overlaps(
                    spec_aabb((#[trigger] self.spec_wires()[k]).0.from, self.spec_wires()[k].0.to),
                    zi,
                ) implies (#[trigger] self.spec_zones()[zi].spec_nodes()).contains(k as usize) by {
                if k < ws0.len() {
                    assert(self.spec_wires()[k].0 == old(self).spec_wires()[k].0);
                    assert(old(self).spec_zones()[zi].spec_nodes().contains(k as usize));
                    assert(zone_extended(zones_mid[zi], self.spec_zones()[zi], index));
                    let j = choose|j: int|
                        0 <= j < zones_mid[zi].spec_nodes().len() && zones_mid[zi].spec_nodes()[j]
                            == k as usize;
                    assert(self.spec_zones()[zi].spec_nodes()[j] == k as usize);
                }
            }
        }
        proof {
            assert(wires_extended(ws0, self.spec_wires(), wire));
            lemma_add_wire_connectivity(ws0, self.spec_wires(), wire);
        }
        let ghost nodes_mid = self.spec_graph().spec_nodes();
        self.connect_wire();
        proof {
            let cur = self.spec_graph().spec_nodes();
            let ws = self.spec_wires();
            assert forall|i: int, p: int|
                #![trigger cur[i]->Some_0.inputs@[p]]
                0 <= i < cur.len() && cur[i] is Some && 0 <= p
                    < cur[i]->Some_0.inputs@.len() implies match input_pos(cur[i]->Some_0, p) {
                Some(pos) => (last_wire_at(ws, pos, ws.len() as int) matches Some(nx)
                    ==> cur[i]->Some_0.inputs@[p] == Some(nx)),
                None => true,
            } by {
                assert(nodes_mid[i] is Some);
                let nmid = nodes_mid[i]->Some_0;
                assert(node_connected(nmid, cur[i]->Some_0, ws));
                assert(cur[i]->Some_0.inputs@[p] == connect_target(
                    ws,
                    nmid.inputs@[p],
                    input_pos(nmid, p),
                ));
                assert(input_pos(cur[i]->Some_0, p) == input_pos(nmid, p));
            }
            assert forall|i: int, p: int|
                #![trigger cur[i]->Some_0.outputs@[p]]
                0 <= i < cur.len() && cur[i] is Some && 0 <= p
                    < cur[i]->Some_0.outputs@.len() implies match output_pos(cur[i]->Some_0, p) {
                Some(pos) => (last_wire_at(ws, pos, ws.len() as int) matches Some(nx)
                    ==> cur[i]->Some_0.outputs@[p] == Some(nx)),
                None => true,
            } by {
                assert(nodes_mid[i] is Some);
                let nmid = nodes_mid[i]->Some_0;
                assert(node_connected(nmid, cur[i]->Some_0, ws));
                assert(cur[i]->Some_0.outputs@[p] == connect_target(
                    ws,
                    nmid.outputs@[p],
                    output_pos(nmid, p),
                ));
                assert(output_pos(cur[i]->Some_0, p) == output_pos(nmid, p));
            }
        }
    }

    /// Compile this circuit into an immutable, shareable program. Ports are
    /// (re)connected first, so components placed after their wires are
    /// picked up.
    pub fn generate_ir(&mut self) -> (r: Arc<Program>)
        requires
            old(self).wf(),
        ensures
            final(self).wf(),
            final(self).spec_wires() == old(self).spec_wires(),
            final(self).spec_zones() == old(self).spec_zones(),
            final(self).spec_graph().spec_nexuses() == old(self).spec_graph().spec_nexuses(),
            connected_post(
                old(self).spec_graph().spec_nodes(),
                final(self).spec_graph().spec_nodes(),
                old(self).spec_wires(),
            ),
            ports_follow_wires(final(self).spec_graph().spec_nodes(), final(self).spec_wires()),
            program_wf((*r).model()),
            (*r).model() == spec_compile(
                final(self).spec_graph().spec_nodes(),
                final(self).spec_graph().spec_nexuses(),
            ),
    {
        let ghost nodes_mid = self.spec_graph().spec_nodes();
        self.connect_wire();
        proof {
            let cur = self.spec_graph().spec_nodes();
            let ws = self.spec_wires();
            assert forall|i: int, p: int|
                #![trigger cur[i]->Some_0.inputs@[p]]
                0 <= i < cur.len() && cur[i] is Some && 0 <= p
                    < cur[i]->Some_0.inputs@.len() implies match input_pos(cur[i]->Some_0, p) {
                Some(pos) => (last_wire_at(ws, pos, ws.len() as int) matches Some(nx)
                    ==> cur[i]->Some_0.inputs@[p] == Some(nx)),
                None => true,
            } by {
                assert(nodes_mid[i] is Some);
                let nmid = nodes_mid[i]->Some_0;
                assert(node_connected(nmid, cur[i]->Some_0, ws));
                assert(cur[i]->Some_0.inputs@[p] == connect_target(
                    ws,
                    nmid.inputs@[p],
                    input_pos(nmid, p),
                ));
            }
            assert forall|i: int, p: int|
                #![trigger cur[i]->Some_0.outputs@[p]]
                0 <= i < cur.len() && cur[i] is Some && 0 <= p
                    < cur[i]->Some_0.outputs@.len() implies match output_pos(cur[i]->Some_0, p) {
                Some(pos) => (last_wire_at(ws, pos, ws.len() as int) matches Some(nx)
                    ==> cur[i]->Some_0.outputs@[p] == Some(nx)),
                None => true,
            } by {
                assert(nodes_mid[i] is Some);
                let nmid = nodes_mid[i]->Some_0;
                assert(node_connected(nmid, cur[i]->Some_0, ws));
                assert(cur[i]->Some_0.outputs@[p] == connect_target(
                    ws,
                    nmid.outputs@[p],
                    output_pos(nmid, p),
                ));
            }
        }
        let p = self.graph.generate_ir();
        Arc::new(p)
    }

    /// Iterate the wires touching the given box.
    pub fn wires(&self, aabb: Aabb) -> (r: WireIter<'_, C>)
        ensures
            r.spec_wires() == self.spec_wires(),
            r.spec_aabb() == aabb,
            r.spec_index() == 0,
    {
        WireIter { circuit: self, aabb, index: 0 }
    }

    /// Iterate the components placed inside the given box.
    pub fn components(&self, aabb: Aabb) -> (r: ComponentIter<'_, C>)
        ensures
            r.spec_nodes() == self.spec_graph().spec_nodes(),
            r.spec_aabb() == aabb,
            r.spec_index() == 0,
    {
        ComponentIter { iter: self.graph.nodes(), aabb }
    }

    /// Run the connect pass: every component port whose pin position
    /// coincides with a wire endpoint is connected to that wire's nexus
    /// (the last such wire wins); all other ports keep their assignment.
    #[verifier::loop_isolation(false)]
    fn connect_wire(&mut self)
        requires
            old(self).wf(),
        ensures
            final(self).wf(),
            final(self).spec_wires() == old(self).spec_wires(),
            final(self).spec_zones() == old(self).spec_zones(),
            final(self).spec_graph().spec_nexuses() == old(self).spec_graph().spec_nexuses(),
            connected_post(
                old(self).spec_graph().spec_nodes(),
                final(self).spec_graph().spec_nodes(),
                old(self).spec_wires(),
            ),
    {
        let ghost pre = self.spec_graph().spec_nodes();
        let ghost wsv = self.spec_wires();
        let node_slots = self.graph.node_slot_count();
        let mut i: usize = 0;
        while i < node_slots
            invariant
                i <= node_slots,
                node_slots == pre.len(),
                pre == old(self).spec_graph().spec_nodes(),
                wsv == old(self).spec_wires(),
                self.spec_graph().wf(),
                self.spec_wires() == wsv,
                self.spec_zones() == old(self).spec_zones(),
                self.spec_graph().spec_nexuses() == old(self).spec_graph().spec_nexuses(),
                self.spec_graph().spec_nodes().len() == pre.len(),
                forall|j: int|
                    0 <= j < pre.len() ==> ((#[trigger] pre[j]) is Some
                        <==> self.spec_graph().spec_nodes()[j] is Some),
                forall|j: int|
                    0 <= j < i && (#[trigger] pre[j]) is Some ==> node_connected(
                        pre[j]->Some_0,
                        self.spec_graph().spec_nodes()[j]->Some_0,
                        wsv,
                    ),
                forall|j: int|
                    i <= j < pre.len() ==> self.spec_graph().spec_nodes()[j] == pre[j],
            decreases node_slots - i,
        {
            let h = GraphNodeHandle(Handle(i));
            let info = match self.graph.node(h) {
                Some(n) => Some((n.component.inputs(), n.component.outputs(), n.meta)),
                None => None,
            };
            match info {
                Some((offs_in, offs_out, meta)) => {
                    let ghost nv = pre[i as int]->Some_0;
                    proof {
                        assert(self.spec_graph().spec_nodes()[i as int] == pre[i as int]);
                        assert(crate::graph::node_wf(nv));
                        nv.component.lemma_port_offsets();
                    }
                    let n_in = offs_in.len();
                    let mut p: usize = 0;
                    while p < n_in
                        invariant
                            p <= n_in,
                            i < pre.len(),
                            node_slots == pre.len(),
                            pre == old(self).spec_graph().spec_nodes(),
                            wsv == old(self).spec_wires(),
                            pre[i as int] is Some,
                            nv == pre[i as int]->Some_0,
                            n_in == nv.inputs@.len(),
                            offs_in@ == nv.component.spec_inputs(),
                            offs_in@.len() == n_in,
                            meta == nv.meta,
                            self.spec_graph().wf(),
                            self.spec_wires() == wsv,
                            self.spec_zones() == old(self).spec_zones(),
                            self.spec_graph().spec_nexuses() == old(self).spec_graph().spec_nexuses(),
                            self.spec_graph().spec_nodes().len() == pre.len(),
                            forall|j: int|
                                0 <= j < pre.len() ==> ((#[trigger] pre[j]) is Some
                                    <==> self.spec_graph().spec_nodes()[j] is Some),
                            forall|j: int|
                                0 <= j < i && (#[trigger] pre[j]) is Some ==> node_connected(
                                    pre[j]->Some_0,
                                    self.spec_graph().spec_nodes()[j]->Some_0,
                                    wsv,
                                ),
                            forall|j: int|
                                i < j < pre.len() ==> self.spec_graph().spec_nodes()[j] == pre[j],
                            self.spec_graph().spec_nodes()[i as int] is Some,
                            ({
                                let cur = self.spec_graph().spec_nodes()[i as int]->Some_0;
                                &&& cur.component == nv.component
                                &&& cur.meta == nv.meta
                                &&& cur.outputs@ == nv.outputs@
                                &&& cur.inputs@.len() == nv.inputs@.len()
                                &&& forall|q: int|
                                    0 <= q < p ==> cur.inputs@[q] == connect_target(
                                        wsv,
                                        nv.inputs@[q],
                                        input_pos(nv, q),
                                    )
                                &&& forall|q: int|
                                    p <= q < n_in ==> cur.inputs@[q] == nv.inputs@[q]
                            }),
                        decreases n_in - p,
                    {
                        let off = offs_in[p];
                        let poso = match meta.1.rotate_offset(off) {
                            Some(o2) => meta.0.add_offset(o2),
                            None => None,
                        };
                        proof {
                            assert(poso == port_pos(nv.meta, nv.component.spec_inputs()[p as int]));
                        }
                        match poso {
                            Some(pos) => {
                                match self.last_wire_endpoint_at(pos) {
                                    Some(nx) => {
                                        proof {
                                            lemma_last_wire_member(wsv, pos, wsv.len() as int);
                                            let j = choose|j: int|
                                                0 <= j < wsv.len() && (#[trigger] wsv[j]).1 == nx;
                                            assert(old(self).spec_wires()[j] == wsv[j]);
                                            assert(old(self).spec_graph().nexus_live(
                                                old(self).spec_wires()[j].1.0.0 as int,
                                            ));
                                            assert(self.spec_graph().nexus_live(nx.0.0 as int));
                                        }
                                        let res = self.graph.connect(
                                            Port::Input { node: h, port: p },
                                            nx,
                                        );
                                        match res {
                                            Ok(_) => {},
                                            Err(_) => {
                                                proof {
                                                    assert(false);
                                                }
                                            },
                                        }
                                    },
                                    None => {},
                                }
                            },
                            None => {},
                        }
                        p = p + 1;
                    }
                    let n_out = offs_out.len();
                    let mut p2: usize = 0;
                    while p2 < n_out
                        invariant
                            p2 <= n_out,
                            i < pre.len(),
                            node_slots == pre.len(),
                            pre == old(self).spec_graph().spec_nodes(),
                            wsv == old(self).spec_wires(),
                            pre[i as int] is Some,
                            nv == pre[i as int]->Some_0,
                            n_out == nv.outputs@.len(),
                            offs_out@ == nv.component.spec_outputs(),
                            offs_out@.len() == n_out,
                            meta == nv.meta,
                            self.spec_graph().wf(),
                            self.spec_wires() == wsv,
                            self.spec_zones() == old(self).spec_zones(),
                            self.spec_graph().spec_nexuses() == old(self).spec_graph().spec_nexuses(),
                            self.spec_graph().spec_nodes().len() == pre.len(),
                            forall|j: int|
                                0 <= j < pre.len() ==> ((#[trigger] pre[j]) is Some
                                    <==> self.spec_graph().spec_nodes()[j] is Some),
                            forall|j: int|
                                0 <= j < i && (#[trigger] pre[j]) is Some ==> node_connected(
                                    pre[j]->Some_0,
                                    self.spec_graph().spec_nodes()[j]->Some_0,
                                    wsv,
                                ),
                            forall|j: int|
                                i < j < pre.len() ==> self.spec_graph().spec_nodes()[j] == pre[j],
                            self.spec_graph().spec_nodes()[i as int] is Some,
                            ({
                                let cur = self.spec_graph().spec_nodes()[i as int]->Some_0;
                                &&& cur.component == nv.component
                                &&& cur.meta == nv.meta
                                &&& cur.inputs@.len() == nv.inputs@.len()
                                &&& forall|q: int|
                                    0 <= q < nv.inputs@.len() ==> cur.inputs@[q] == connect_target(
                                        wsv,
                                        nv.inputs@[q],
                                        input_pos(nv, q),
                                    )
                                &&& cur.outputs@.len() == nv.outputs@.len()
                                &&& forall|q: int|
                                    0 <= q < p2 ==> cur.outputs@[q] == connect_target(
                                        wsv,
                                        nv.outputs@[q],
                                        output_pos(nv, q),
                                    )
                                &&& forall|q: int|
                                    p2 <= q < n_out ==> cur.outputs@[q] == nv.outputs@[q]
                            }),
                        decreases n_out - p2,
                    {
                        let off = offs_out[p2];
                        let poso = match meta.1.rotate_offset(off) {
                            Some(o2) => meta.0.add_offset(o2),
                            None => None,
                        };
                        proof {
                            assert(poso == port_pos(
                                nv.meta,
                                nv.component.spec_outputs()[p2 as int],
                            ));
                        }
                        match poso {
                            Some(pos) => {
                                match self.last_wire_endpoint_at(pos) {
                                    Some(nx) => {
                                        proof {
                                            lemma_last_wire_member(wsv, pos, wsv.len() as int);
                                            let j = choose|j: int|
                                                0 <= j < wsv.len() && (#[trigger] wsv[j]).1 == nx;
                                            assert(old(self).spec_wires()[j] == wsv[j]);
                                            assert(old(self).spec_graph().nexus_live(
                                                old(self).spec_wires()[j].1.0.0 as int,
                                            ));
                                            assert(self.spec_graph().nexus_live(nx.0.0 as int));
                                        }
                                        let res = self.graph.connect(
                                            Port::Output { node: h, port: p2 },
                                            nx,
                                        );
                                        match res {
                                            Ok(_) => {},
                                            Err(_) => {
                                                proof {
                                                    assert(false);
                                                }
                                            },
                                        }
                                    },
                                    None => {},
                                }
                            },
                            None => {},
                        }
                        p2 = p2 + 1;
                    }
                    proof {
                        assert(node_connected(
                            nv,
                            self.spec_graph().spec_nodes()[i as int]->Some_0,
                            wsv,
                        ));
                    }
                },
                None => {},
            }
            i = i + 1;
        }
        proof {
            assert forall|k: int|
                0 <= k < self.spec_wires().len() implies self.spec_graph().nexus_live(
                (#[trigger] self.spec_wires()[k]).1.0.0 as int,
            ) by {
                assert(old(self).spec_graph().nexus_live(old(self).spec_wires()[k].1.0.0 as int));
            }
            assert forall|i: int| self.spec_graph().nexus_live(i) implies #[trigger] nexus_userdata_ok(
                self.spec_graph(),
                self.spec_wires(),
                i,
            ) by {
                assert(nexus_userdata_ok(old(self).spec_graph(), old(self).spec_wires(), i));
                assert(self.spec_graph().spec_nexuses() == old(self).spec_graph().spec_nexuses());
            }
            assert forall|j: int|
                0 <= j < self.spec_graph().spec_nodes().len() && (
            #[trigger] self.spec_graph().spec_nodes()[j]) is Some implies {
                &&& (self.spec_graph().spec_nodes()[j]->Some_0.component.spec_external_input()
                    matches Some(idx) ==> idx < usize::MAX)
                &&& (self.spec_graph().spec_nodes()[j]->Some_0.component.spec_external_output()
                    matches Some(idx) ==> idx < usize::MAX)
            } by {
                assert(pre[j] is Some);
                assert(node_connected(
                    pre[j]->Some_0,
                    self.spec_graph().spec_nodes()[j]->Some_0,
                    wsv,
                ));
            }
        }
    }
}

/// Idempotent compile: compiling the same circuit twice yields programs
/// with the same memory size and identical boundary maps. The first
/// compilation leaves the port assignments in connect-pass normal form,
/// and the connect pass is idempotent, so the second compilation sees an
/// unchanged graph and produces the same program.
pub proof fn lemma_compile_idempotent<C: CircuitComponent, U>(
    n0: Seq<Option<GraphNode<C, (Point, Direction)>>>,
    n1: Seq<Option<GraphNode<C, (Point, Direction)>>>,
    n2: Seq<Option<GraphNode<C, (Point, Direction)>>>,
    nexuses: Seq<Option<Nexus<U>>>,
    wires: Seq<(Wire, NexusHandle)>,
)
    requires
        connected_post(n0, n1, wires),
        connected_post(n1, n2, wires),
        n0.len() <= usize::MAX,
    ensures
        spec_compile(n2, nexuses) == spec_compile(n1, nexuses),
{
    assert forall|i: int|
        0 <= i < n1.len() && (#[trigger] n1[i]) is Some implies {
        let na = n1[i]->Some_0;
        let nb = n2[i]->Some_0;
        &&& nb.component == na.component
        &&& nb.meta == na.meta
        &&& nb.inputs@ == na.inputs@
        &&& nb.outputs@ == na.outputs@
    } by {
        assert(n0[i] is Some);
        let nz = n0[i]->Some_0;
        let na = n1[i]->Some_0;
        let nb = n2[i]->Some_0;
        assert(node_connected(nz, na, wires));
        assert(node_connected(na, nb, wires));
        assert forall|p: int| 0 <= p < na.inputs@.len() implies nb.inputs@[p]
            == na.inputs@[p] by {
            assert(na.inputs@[p] == connect_target(wires, nz.inputs@[p], input_pos(nz, p)));
            assert(nb.inputs@[p] == connect_target(wires, na.inputs@[p], input_pos(na, p)));
            assert(input_pos(na, p) == input_pos(nz, p));
        }
        assert forall|p: int| 0 <= p < na.outputs@.len() implies nb.outputs@[p]
            == na.outputs@[p] by {
            assert(na.outputs@[p] == connect_target(wires, nz.outputs@[p], output_pos(nz, p)));
            assert(nb.outputs@[p] == connect_target(wires, na.outputs@[p], output_pos(na, p)));
            assert(output_pos(na, p) == output_pos(nz, p));
        }
        assert(nb.inputs@ =~= na.inputs@);
        assert(nb.outputs@ =~= na.outputs@);
    }
    assert(nodes_equiv(n1, n2));
    lemma_compile_equiv(n1, n2, nexuses);
}

impl<C> Default for Circuit<C> where C: CircuitComponent {
    fn default() -> (r: Self)
        ensures
            r.wf(),
            r.spec_wires() =~= Seq::<(Wire, NexusHandle)>::empty(),
    {
        Circuit::new()
    }
}

/// A wire touches the box if either endpoint lies inside it.
pub open spec fn wire_in_aabb(w: Wire, b: Aabb) -> bool {
    spec_aabb_contains(b, w.from) || spec_aabb_contains(b, w.to)
}

/// Cursor over the wires touching a box, in insertion order.
pub struct WireIter<'a, C> where C: CircuitComponent {
    circuit: &'a Circuit<C>,
    aabb: Aabb,
    index: usize,
}

impl<'a, C> WireIter<'a, C> where C: CircuitComponent {
    pub closed spec fn spec_wires(&self) -> Seq<(Wire, NexusHandle)> {
        self.circuit.spec_wires()
    }

    pub closed spec fn spec_aabb(&self) -> Aabb {
        self.aabb
    }

    pub closed spec fn spec_index(&self) -> usize {
        self.index
    }

    pub fn next(&mut self) -> (r: Option<&'a Wire>)
        requires
            old(self).spec_index() <= old(self).spec_wires().len(),
        ensures
            final(self).spec_wires() == old(self).spec_wires(),
            final(self).spec_aabb() == old(self).spec_aabb(),
            match r {
                Some(w) => {
                    &&& old(self).spec_index() < final(self).spec_index() <= old(self).spec_wires().len()
                    &&& *w == old(self).spec_wires()[final(self).spec_index() - 1].0
                    &&& wire_in_aabb(*w, old(self).spec_aabb())
                    &&& forall|j: int|
                        old(self).spec_index() <= j < final(self).spec_index() - 1
                            ==> !wire_in_aabb(
                            (#[trigger] old(self).spec_wires()[j]).0,
                            old(self).spec_aabb(),
                        )
                },
                None => {
                    &&& final(self).spec_index() == old(self).spec_wires().len()
                    &&& forall|j: int|
                        old(self).spec_index() <= j < old(self).spec_wires().len()
                            ==> !wire_in_aabb(
                            (#[trigger] old(self).spec_wires()[j]).0,
                            old(self).spec_aabb(),
                        )
                },
            },
    {
        while self.index < self.circuit.wires.len()
            invariant
                self.circuit == old(self).circuit,
                self.aabb == old(self).aabb,
                old(self).spec_index() <= self.index <= self.circuit.spec_wires().len(),
                forall|j: int|
                    old(self).spec_index() <= j < self.index ==> !wire_in_aabb(
                        (#[trigger] old(self).spec_wires()[j]).0,
                        old(self).spec_aabb(),
                    ),
            decreases self.circuit.spec_wires().len() - self.index,
        {
            let i = self.index;
            self.index = i + 1;
            let (w, _) = &self.circuit.wires[i];
            if self.aabb.intersect_point(w.from) || self.aabb.intersect_point(w.to) {
                return Some(w);
            }
        }
        None
    }
}

/// Cursor over the components placed inside a box, in handle order.
pub struct ComponentIter<'a, C> where C: CircuitComponent {
    iter: GraphIter<'a, C, (Point, Direction)>,
    aabb: Aabb,
}

impl<'a, C> ComponentIter<'a, C> where C: CircuitComponent {
    pub closed spec fn spec_nodes(&self) -> Seq<
        Option<crate::graph::GraphNode<C, (Point, Direction)>>,
    > {
        self.iter.spec_nodes()
    }

    pub closed spec fn spec_aabb(&self) -> Aabb {
        self.aabb
    }

    pub closed spec fn spec_index(&self) -> usize {
        self.iter.spec_index()
    }

    pub fn next(&mut self) -> (r: Option<(&'a C, Point, Direction)>)
        requires
            old(self).spec_index() <= old(self).spec_nodes().len(),
        ensures
            final(self).spec_nodes() == old(self).spec_nodes(),
            final(self).spec_aabb() == old(self).spec_aabb(),
            match r {
                Some((c, p, d)) => {
                    &&& old(self).spec_index() < final(self).spec_index() <= old(self).spec_nodes().len()
                    &&& old(self).spec_nodes()[final(self).spec_index() - 1] matches Some(n)
                        && n.component == *c && n.meta == (p, d)
                    &&& spec_aabb_contains(old(self).spec_aabb(), p)
                    &&& forall|j: int|
                        old(self).spec_index() <= j < final(self).spec_index() - 1
                            ==> !component_in_aabb(
                            #[trigger] old(self).spec_nodes()[j],
                            old(self).spec_aabb(),
                        )
                },
                None => {
                    &&& final(self).spec_index() == old(self).spec_nodes().len()
                    &&& forall|j: int|
                        old(self).spec_index() <= j < old(self).spec_nodes().len()
                            ==> !component_in_aabb(
                            #[trigger] old(self).spec_nodes()[j],
                            old(self).spec_aabb(),
                        )
                },
            },
    {
        loop
            invariant
                self.aabb == old(self).aabb,
                self.spec_nodes() == old(self).spec_nodes(),
                old(self).spec_index() <= self.spec_index() <= self.spec_nodes().len(),
                forall|j: int|
                    old(self).spec_index() <= j < self.spec_index() ==> !component_in_aabb(
                        #[trigger] old(self).spec_nodes()[j],
                        old(self).spec_aabb(),
                    ),
            decreases self.spec_nodes().len() - self.spec_index(),
        {
            match self.iter.next() {
                Some((c, h, m)) => {
                    let (p, d) = *m;
                    if self.aabb.intersect_point(p) {
                        return Some((c, p, d));
                    }
                },
                None => {
                    return None;
                },
            }
        }
    }
}

/// The slot holds a component whose placement point lies inside the box.
pub open spec fn component_in_aabb<C: CircuitComponent>(
    slot: Option<crate::graph::GraphNode<C, (Point, Direction)>>,
    b: Aabb,
) -> bool {
    slot matches Some(n) && spec_aabb_contains(b, n.meta.0)
}

} // verus!
