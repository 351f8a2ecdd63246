//! Typed bipartite graph: component nodes with ports, and nexuses joining
//! them.
//!
//! A nexus is an electrical equipotential group. The port-to-nexus relation
//! is stored as a function: each node keeps, per port, its current nexus
//! assignment. A nexus's port set is the derived preimage of that function,
//! so a port can never belong to two nexuses at once.

use vstd::prelude::*;

use crate::SENTINEL;
use crate::arena::{Arena, Handle, Iter};
use crate::component::{Component, mask_of, spec_mask_of};
use crate::program::{IrOp, Node, OpModel, Program, program_wf, ops_valid, op_valid, ops_models};

verus! {

/// Handle of a component node inside a [`Graph`].
#[derive(Clone, Copy, Debug, PartialEq, Eq, Structural, Hash)]
pub struct GraphNodeHandle(pub Handle);

impl GraphNodeHandle {
    pub fn into_raw(self) -> (r: usize)
        ensures
            r == self.0.0,
    {
        self.0.index()
    }
}

/// Handle of a nexus inside a [`Graph`].
#[derive(Clone, Copy, Debug, PartialEq, Eq, Structural, Hash)]
pub struct NexusHandle(pub Handle);

impl NexusHandle {
    pub fn index(self) -> (r: usize)
        ensures
            r == self.0.0,
    {
        self.0.index()
    }
}

/// Address of a pin on a component node.
#[derive(Clone, Copy, Debug, PartialEq, Eq, Structural)]
pub enum Port {
    Input { node: GraphNodeHandle, port: usize },
    Output { node: GraphNodeHandle, port: usize },
}

/// Failure of a port-level graph operation.
#[derive(Clone, Copy, Debug, PartialEq, Eq, Structural)]
pub enum GraphError {
    /// The port index is outside the component's port count.
    InvalidPort,
    /// The node or nexus handle does not refer to a live slot.
    Dangling,
}

/// A component node: the component value, positional metadata, and one
/// nexus assignment per port.
pub struct GraphNode<C, M> {
    pub component: C,
    pub meta: M,
    pub inputs: Vec<Option<NexusHandle>>,
    pub outputs: Vec<Option<NexusHandle>>,
}

/// An equipotential net with user-assigned data.
pub struct Nexus<U> {
    pub userdata: U,
}

/// Bipartite structure of component nodes and nexuses.
pub struct Graph<C, M, U> where C: Component {
    nodes: Arena<GraphNode<C, M>>,
    nexuses: Arena<Nexus<U>>,
}

impl<C, M, U> Graph<C, M, U> where C: Component {
    pub closed spec fn spec_nodes(&self) -> Seq<Option<GraphNode<C, M>>> {
        self.nodes@
    }

    pub closed spec fn spec_nexuses(&self) -> Seq<Option<Nexus<U>>> {
        self.nexuses@
    }

    /// The node at slot `i` is live.
    pub open spec fn node_live(&self, i: int) -> bool {
        0 <= i < self.spec_nodes().len() && self.spec_nodes()[i] is Some
    }

    /// The nexus at slot `i` is live.
    pub open spec fn nexus_live(&self, i: int) -> bool {
        0 <= i < self.spec_nexuses().len() && self.spec_nexuses()[i] is Some
    }

    /// The input-port assignment of port `p` of the node at slot `i`.
    pub open spec fn input_assignment(&self, i: int, p: int) -> Option<NexusHandle>
        recommends
            self.node_live(i),
    {
        self.spec_nodes()[i]->Some_0.inputs[p]
    }

    /// The output-port assignment of port `p` of the node at slot `i`.
    pub open spec fn output_assignment(&self, i: int, p: int) -> Option<NexusHandle>
        recommends
            self.node_live(i),
    {
        self.spec_nodes()[i]->Some_0.outputs[p]
    }

    /// Port tables match the component's port counts.
    pub open spec fn ports_wf(&self) -> bool {
        forall|i: int|
            #![trigger self.spec_nodes()[i]]
            self.node_live(i) ==> node_wf(self.spec_nodes()[i]->Some_0)
    }

    pub closed spec fn arenas_wf(&self) -> bool {
        self.nodes.wf() && self.nexuses.wf()
    }

    pub open spec fn wf(&self) -> bool {
        self.arenas_wf() && self.ports_wf()
    }

    pub fn new() -> (r: Self)
        ensures
            r.wf(),
            r.spec_nodes() =~= Seq::<Option<GraphNode<C, M>>>::empty(),
            r.spec_nexuses() =~= Seq::<Option<Nexus<U>>>::empty(),
    {
        Graph { nodes: Arena::new(), nexuses: Arena::new() }
    }

    /// Add a component node with unconnected ports.
    pub fn add(&mut self, component: C, meta: M) -> (r: GraphNodeHandle)
        requires
            old(self).wf(),
        ensures
            final(self).wf(),
            final(self).spec_nexuses() == old(self).spec_nexuses(),
            r.0.0 < final(self).spec_nodes().len(),
            ({
                let n = final(self).spec_nodes()[r.0.0 as int];
                &&& n matches Some(node)
                &&& node.component == component
                &&& node.meta == meta
                &&& node.inputs@ =~= Seq::new(
                    component.spec_input_count() as nat,
                    |p: int| None::<NexusHandle>,
                )
                &&& node.outputs@ =~= Seq::new(
                    component.spec_output_count() as nat,
                    |p: int| None::<NexusHandle>,
                )
            }),
            r.0.0 < old(self).spec_nodes().len() ==> old(self).spec_nodes()[r.0.0 as int] is None
                && final(self).spec_nodes().len() == old(self).spec_nodes().len(),
            r.0.0 >= old(self).spec_nodes().len() ==> r.0.0 == old(self).spec_nodes().len()
                && final(self).spec_nodes().len() == old(self).spec_nodes().len() + 1,
            forall|j: int|
                0 <= j < old(self).spec_nodes().len() && j != r.0.0 ==> final(self).spec_nodes()[j]
                    == old(self).spec_nodes()[j],
    {
        let n_in = component.input_count();
        let n_out = component.output_count();
        let mut inputs: Vec<Option<NexusHandle>> = Vec::new();
        let mut k: usize = 0;
        while k < n_in
            invariant
                k <= n_in,
                inputs@ =~= Seq::new(k as nat, |p: int| None::<NexusHandle>),
            decreases n_in - k,
        {
            inputs.push(None);
            k = k + 1;
        }
        let mut outputs: Vec<Option<NexusHandle>> = Vec::new();
        let mut k2: usize = 0;
        while k2 < n_out
            invariant
                k2 <= n_out,
                outputs@ =~= Seq::new(k2 as nat, |p: int| None::<NexusHandle>),
            decreases n_out - k2,
        {
            outputs.push(None);
            k2 = k2 + 1;
        }
        let node = GraphNode { component, meta, inputs, outputs };
        let h = self.nodes.insert(node);
        GraphNodeHandle(h)
    }

    /// Create a fresh, empty nexus.
    pub fn new_nexus(&mut self, userdata: U) -> (r: NexusHandle)
        requires
            old(self).wf(),
        ensures
            final(self).wf(),
            final(self).spec_nodes() == old(self).spec_nodes(),
            r.0.0 < final(self).spec_nexuses().len(),
            final(self).spec_nexuses()[r.0.0 as int] matches Some(nx) && nx.userdata == userdata,
            r.0.0 < old(self).spec_nexuses().len() ==> old(self).spec_nexuses()[r.0.0 as int]
                is None && final(self).spec_nexuses().len() == old(self).spec_nexuses().len(),
            r.0.0 >= old(self).spec_nexuses().len() ==> r.0.0 == old(self).spec_nexuses().len()
                && final(self).spec_nexuses().len() == old(self).spec_nexuses().len() + 1,
            forall|j: int|
                0 <= j < old(self).spec_nexuses().len() && j != r.0.0 ==> final(self).spec_nexuses()[j] == old(self).spec_nexuses()[j],
    {
        let h = self.nexuses.insert(Nexus { userdata });
        NexusHandle(h)
    }

    /// Shared access to a nexus.
    pub fn nexus(&self, nexus: NexusHandle) -> (r: Option<&Nexus<U>>)
        ensures
            match r {
                Some(nx) => self.nexus_live(nexus.0.0 as int) && self.spec_nexuses()[nexus.0.0 as int]
                    == Some(*nx),
                None => !self.nexus_live(nexus.0.0 as int),
            },
    {
        self.nexuses.get(nexus.0)
    }

    /// Mutable access to a nexus's userdata.
    pub fn nexus_mut(&mut self, nexus: NexusHandle) -> (r: Option<&mut Nexus<U>>)
        requires
            old(self).wf(),
        ensures
            final(self).wf(),
            final(self).spec_nodes() == old(self).spec_nodes(),
            match r {
                Some(nx) => {
                    &&& old(self).nexus_live(nexus.0.0 as int)
                    &&& old(self).spec_nexuses()[nexus.0.0 as int] == Some(*nx)
                    &&& final(self).spec_nexuses() =~= old(self).spec_nexuses().update(
                        nexus.0.0 as int,
                        Some(*final(nx)),
                    )
                },
                None => {
                    &&& !old(self).nexus_live(nexus.0.0 as int)
                    &&& final(self).spec_nexuses() == old(self).spec_nexuses()
                },
            },
    {
        self.nexuses.get_mut(nexus.0)
    }

    /// Shared access to a node's component and metadata.
    pub fn node(&self, node: GraphNodeHandle) -> (r: Option<&GraphNode<C, M>>)
        ensures
            match r {
                Some(n) => self.node_live(node.0.0 as int) && self.spec_nodes()[node.0.0 as int]
                    == Some(*n),
                None => !self.node_live(node.0.0 as int),
            },
    {
        self.nodes.get(node.0)
    }

    /// Connect a port to a nexus, replacing any prior assignment of the port.
    pub fn connect(&mut self, port: Port, nexus: NexusHandle) -> (r: Result<(), GraphError>)
        requires
            old(self).wf(),
        ensures
            final(self).wf(),
            final(self).spec_nexuses() == old(self).spec_nexuses(),
            match r {
                Ok(()) => {
                    &&& old(self).nexus_live(nexus.0.0 as int)
                    &&& old(self).node_live(port_node(port).0.0 as int)
                    &&& port_in_range(old(self).spec_nodes(), port)
                    &&& reassigned(
                        old(self).spec_nodes(),
                        final(self).spec_nodes(),
                        port,
                        Some(nexus),
                    )
                },
                Err(GraphError::Dangling) => {
                    &&& final(self).spec_nodes() == old(self).spec_nodes()
                    &&& (!old(self).nexus_live(nexus.0.0 as int) || !old(self).node_live(
                        port_node(port).0.0 as int,
                    ))
                },
                Err(GraphError::InvalidPort) => {
                    &&& final(self).spec_nodes() == old(self).spec_nodes()
                    &&& old(self).nexus_live(nexus.0.0 as int)
                    &&& old(self).node_live(port_node(port).0.0 as int)
                    &&& !port_in_range(old(self).spec_nodes(), port)
                },
            },
    {
        if self.nexuses.get(nexus.0).is_none() {
            return Err(GraphError::Dangling);
        }
        self.set_assignment(port, Some(nexus))
    }

    /// Store `value` as the assignment of `port`.
    fn set_assignment(&mut self, port: Port, value: Option<NexusHandle>) -> (r: Result<
        (),
        GraphError,
    >)
        requires
            old(self).wf(),
        ensures
            final(self).wf(),
            final(self).spec_nexuses() == old(self).spec_nexuses(),
            match r {
                Ok(()) => {
                    &&& old(self).node_live(port_node(port).0.0 as int)
                    &&& port_in_range(old(self).spec_nodes(), port)
                    &&& reassigned(old(self).spec_nodes(), final(self).spec_nodes(), port, value)
                },
                Err(GraphError::Dangling) => {
                    &&& final(self).spec_nodes() == old(self).spec_nodes()
                    &&& !old(self).node_live(port_node(port).0.0 as int)
                },
                Err(GraphError::InvalidPort) => {
                    &&& final(self).spec_nodes() == old(self).spec_nodes()
                    &&& old(self).node_live(port_node(port).0.0 as int)
                    &&& !port_in_range(old(self).spec_nodes(), port)
                },
            },
    {
        let (node_handle, port_index, is_input) = match port {
            Port::Input { node, port } => (node, port, true),
            Port::Output { node, port } => (node, port, false),
        };
        let in_range = match self.nodes.get(node_handle.0) {
            Some(n) => {
                if is_input {
                    port_index < n.inputs.len()
                } else {
                    port_index < n.outputs.len()
                }
            },
            None => {
                return Err(GraphError::Dangling);
            },
        };
        if !in_range {
            return Err(GraphError::InvalidPort);
        }
        match self.nodes.get_mut(node_handle.0) {
            Some(n) => {
                if is_input {
                    n.inputs[port_index] = value;
                } else {
                    n.outputs[port_index] = value;
                }
            },
            None => {
                proof {
                    assert(false);
                }
            },
        }
        proof {
            let i = node_handle.0.0 as int;
            assert(self.spec_nodes()[i]->Some_0.component == old(self).spec_nodes()[i]->Some_0.component);
            assert forall|j: int|
                #![trigger self.spec_nodes()[j]]
                self.node_live(j) implies node_wf(self.spec_nodes()[j]->Some_0) by {
                if j != i {
                    assert(self.spec_nodes()[j] == old(self).spec_nodes()[j]);
                } else {
                    assert(node_wf(old(self).spec_nodes()[i]->Some_0));
                }
            }
        }
        Ok(())
    }

    /// Remove a port's nexus assignment, if any.
    pub fn disconnect(&mut self, port: Port) -> (r: Result<(), GraphError>)
        requires
            old(self).wf(),
        ensures
            final(self).wf(),
            final(self).spec_nexuses() == old(self).spec_nexuses(),
            match r {
                Ok(()) => {
                    &&& old(self).node_live(port_node(port).0.0 as int)
                    &&& port_in_range(old(self).spec_nodes(), port)
                    &&& reassigned(old(self).spec_nodes(), final(self).spec_nodes(), port, None)
                },
                Err(GraphError::Dangling) => {
                    &&& final(self).spec_nodes() == old(self).spec_nodes()
                    &&& !old(self).node_live(port_node(port).0.0 as int)
                },
                Err(GraphError::InvalidPort) => {
                    &&& final(self).spec_nodes() == old(self).spec_nodes()
                    &&& old(self).node_live(port_node(port).0.0 as int)
                    &&& !port_in_range(old(self).spec_nodes(), port)
                },
            },
    {
        self.set_assignment(port, None)
    }

    /// Compile the graph into a [`Program`]: assign a dense memory slot to
    /// each live nexus, schedule sources first, emit every node's
    /// instructions, and fill the boundary maps.
    pub fn generate_ir(&self) -> (r: Program)
        requires
            self.wf(),
            ext_indices_ok(self.spec_nodes()),
        ensures
            r.model() == spec_compile(self.spec_nodes(), self.spec_nexuses()),
            program_wf(r.model()),
    {
        let ghost nodes = self.spec_nodes();
        let ghost nexuses = self.spec_nexuses();
        // Phase 1: slot assignment.
        let nexus_slots = self.nexuses.slot_count();
        let mut nexus_map: Vec<usize> = Vec::new();
        let mut live_total: usize = 0;
        let mut i: usize = 0;
        while i < nexus_slots
            invariant
                i <= nexus_slots,
                nexus_slots == nexuses.len(),
                nexuses == self.spec_nexuses(),
                live_total == live_count(nexuses, i as int),
                live_total <= i,
                nexus_map@ =~= Seq::new(i as nat, |j: int| slot_of_nexus(nexuses, j)),
            decreases nexus_slots - i,
        {
            let live = self.nexuses.get(Handle(i)).is_some();
            if live {
                nexus_map.push(live_total);
                live_total = live_total + 1;
            } else {
                nexus_map.push(SENTINEL);
            }
            proof {
                assert(nexus_map@ =~= Seq::new((i + 1) as nat, |j: int| slot_of_nexus(nexuses, j)));
            }
            i = i + 1;
        }
        proof {
            lemma_live_count_bounds(nexuses, nexuses.len() as int);
        }
        // Phase 2: scheduling, sources first.
        let node_slots = self.nodes.slot_count();
        let mut sched: Vec<usize> = Vec::new();
        let mut s1: usize = 0;
        while s1 < node_slots
            invariant
                s1 <= node_slots,
                node_slots == nodes.len(),
                nodes == self.spec_nodes(),
                sched@ =~= sched_filter(nodes, s1 as int, true),
            decreases node_slots - s1,
        {
            let is_src = match self.nodes.get(Handle(s1)) {
                Some(n) => n.component.input_count() == 0,
                None => false,
            };
            if is_src {
                sched.push(s1);
            }
            s1 = s1 + 1;
        }
        let mut s2: usize = 0;
        while s2 < node_slots
            invariant
                s2 <= node_slots,
                node_slots == nodes.len(),
                nodes == self.spec_nodes(),
                sched@ =~= sched_filter(nodes, nodes.len() as int, true) + sched_filter(
                    nodes,
                    s2 as int,
                    false,
                ),
            decreases node_slots - s2,
        {
            let is_rest = match self.nodes.get(Handle(s2)) {
                Some(n) => n.component.input_count() != 0,
                None => false,
            };
            if is_rest {
                sched.push(s2);
            }
            s2 = s2 + 1;
        }
        let ghost schedg = schedule(nodes);
        proof {
            assert(sched@ == schedg);
            lemma_schedule_props(nodes);
        }
        // Phase 3: per-node emission.
        let mut prog_nodes: Vec<Node> = Vec::new();
        let mut cursor: usize = live_total;
        let sched_len = sched.len();
        let mut t: usize = 0;
        while t < sched_len
            invariant
                t <= sched_len,
                sched_len == schedg.len(),
                sched@ == schedg,
                schedg == schedule(nodes),
                nodes == self.spec_nodes(),
                nexuses == self.spec_nexuses(),
                self.wf(),
                nexus_map@ == Seq::new(nexuses.len() as nat, |j: int| slot_of_nexus(nexuses, j)),
                forall|u: int|
                    0 <= u < schedg.len() ==> (#[trigger] schedg[u]) < nodes.len()
                        && nodes[schedg[u] as int] is Some,
                prog_nodes@.len() == t,
                prog_nodes@.map(|_i: int, n: Node| ops_models(n.ir@)) =~= compiled_nodes(
                    nodes,
                    nexuses,
                    schedg,
                    t as int,
                ),
                cursor == mem_cursor(nodes, nexuses, schedg, t as int),
            decreases sched_len - t,
        {
            let ni = sched[t];
            let node = self.nodes.get(Handle(ni)).unwrap();
            let ghost nv = nodes[ni as int]->Some_0;
            proof {
                assert(nodes[ni as int] is Some);
                assert(node_wf(nv));
            }
            let n_in = node.inputs.len();
            let mut islots: Vec<usize> = Vec::new();
            let mut p: usize = 0;
            while p < n_in
                invariant
                    p <= n_in,
                    n_in == nv.inputs@.len(),
                    node.inputs@ == nv.inputs@,
                    nexuses.len() == nexus_map@.len(),
                    nexus_map@ == Seq::new(nexuses.len() as nat, |j: int| slot_of_nexus(nexuses, j)),
                    islots@ =~= Seq::new(
                        p as nat,
                        |q: int| slot_of_assignment(nexuses, nv.inputs@[q]),
                    ),
                decreases n_in - p,
            {
                let slot = match node.inputs[p] {
                    Some(nx) => {
                        let h = nx.index();
                        if h < nexus_map.len() {
                            nexus_map[h]
                        } else {
                            SENTINEL
                        }
                    },
                    None => SENTINEL,
                };
                islots.push(slot);
                proof {
                    assert(islots@ =~= Seq::new(
                        (p + 1) as nat,
                        |q: int| slot_of_assignment(nexuses, nv.inputs@[q]),
                    ));
                }
                p = p + 1;
            }
            let n_out = node.outputs.len();
            let mut oslots: Vec<usize> = Vec::new();
            let mut p2: usize = 0;
            while p2 < n_out
                invariant
                    p2 <= n_out,
                    n_out == nv.outputs@.len(),
                    node.outputs@ == nv.outputs@,
                    nexuses.len() == nexus_map@.len(),
                    nexus_map@ == Seq::new(nexuses.len() as nat, |j: int| slot_of_nexus(nexuses, j)),
                    oslots@ =~= Seq::new(
                        p2 as nat,
                        |q: int| slot_of_assignment(nexuses, nv.outputs@[q]),
                    ),
                decreases n_out - p2,
            {
                let slot = match node.outputs[p2] {
                    Some(nx) => {
                        let h = nx.index();
                        if h < nexus_map.len() {
                            nexus_map[h]
                        } else {
                            SENTINEL
                        }
                    },
                    None => SENTINEL,
                };
                oslots.push(slot);
                proof {
                    assert(oslots@ =~= Seq::new(
                        (p2 + 1) as nat,
                        |q: int| slot_of_assignment(nexuses, nv.outputs@[q]),
                    ));
                }
                p2 = p2 + 1;
            }
            proof {
                assert(islots@ =~= node_input_slots(nexuses, nv));
                assert(oslots@ =~= node_output_slots(nexuses, nv));
            }
            let mut ops: Vec<IrOp> = Vec::new();
            let extra = node.component.generate_ir(&islots, &oslots, &mut ops, cursor);
            let ghost base_ops = ops_models(ops@);
            proof {
                assert(ops_models(Seq::<IrOp>::empty()) =~= Seq::<OpModel>::empty());
                assert(Seq::<OpModel>::empty() + nv.component.spec_ir(islots@, oslots@)
                    =~= nv.component.spec_ir(islots@, oslots@));
                assert(base_ops == nv.component.spec_ir(
                    node_input_slots(nexuses, nv),
                    node_output_slots(nexuses, nv),
                ));
            }
            let mut p3: usize = 0;
            while p3 < n_out
                invariant
                    p3 <= n_out,
                    n_out == oslots@.len(),
                    oslots@ == node_output_slots(nexuses, nv),
                    ops_models(ops@) =~= base_ops + cd_ops(oslots@, p3 as int, t),
                decreases n_out - p3,
            {
                let s = oslots[p3];
                if s != SENTINEL {
                    proof {
                        crate::component::lemma_ops_models_push(
                            ops@,
                            IrOp::CheckDirty { a: s, node: t },
                        );
                    }
                    ops.push(IrOp::CheckDirty { a: s, node: t });
                }
                proof {
                    assert(ops_models(ops@) =~= base_ops + cd_ops(oslots@, (p3 + 1) as int, t));
                }
                p3 = p3 + 1;
            }
            let ghost prog_nodes_pre = prog_nodes@;
            prog_nodes.push(Node { ir: ops });
            proof {
                assert(cd_ops(oslots@, n_out as int, t) == cd_ops(
                    node_output_slots(nexuses, nv),
                    node_output_slots(nexuses, nv).len() as int,
                    t,
                ));
                assert(ops_models(prog_nodes@[t as int].ir@) =~= node_ops(nexuses, nv, t));
                assert forall|u: int|
                    0 <= u < t + 1 implies #[trigger] compiled_nodes(nodes, nexuses, schedg, t + 1)[u]
                    == prog_nodes@.map(|_i: int, n: Node| ops_models(n.ir@))[u] by {
                    if u < t {
                        assert(prog_nodes@[u] == prog_nodes_pre[u]);
                        assert(prog_nodes_pre.map(|_i: int, n: Node| ops_models(n.ir@))[u]
                            == compiled_nodes(nodes, nexuses, schedg, t as int)[u]);
                        assert(compiled_nodes(nodes, nexuses, schedg, t + 1)[u] == compiled_nodes(
                            nodes,
                            nexuses,
                            schedg,
                            t as int,
                        )[u]);
                    }
                }
                assert(prog_nodes@.map(|_i: int, n: Node| ops_models(n.ir@)) =~= compiled_nodes(
                    nodes,
                    nexuses,
                    schedg,
                    t + 1,
                ));
            }
            cursor = sat_add_exec(cursor, extra);
            t = t + 1;
        }
        // Phase 4: boundary maps.
        let mut n_in_len: usize = 0;
        let mut n_out_len: usize = 0;
        let mut b: usize = 0;
        while b < node_slots
            invariant
                b <= node_slots,
                node_slots == nodes.len(),
                nodes == self.spec_nodes(),
                ext_indices_ok(nodes),
                n_in_len == ext_len(nodes, b as int, true),
                n_out_len == ext_len(nodes, b as int, false),
            decreases node_slots - b,
        {
            match self.nodes.get(Handle(b)) {
                Some(n) => {
                    match n.component.external_input() {
                        Some(idx) => {
                            if idx + 1 > n_in_len {
                                n_in_len = idx + 1;
                            }
                        },
                        None => {},
                    }
                    match n.component.external_output() {
                        Some(idx) => {
                            if idx + 1 > n_out_len {
                                n_out_len = idx + 1;
                            }
                        },
                        None => {},
                    }
                },
                None => {},
            }
            b = b + 1;
        }
        let mut input_map: Vec<(usize, usize)> = Vec::new();
        let mut input_nexus: Vec<Option<NexusHandle>> = Vec::new();
        let mut f1: usize = 0;
        while f1 < n_in_len
            invariant
                f1 <= n_in_len,
                input_map@ =~= Seq::new(f1 as nat, |q: int| (SENTINEL, 0usize)),
                input_nexus@ =~= Seq::new(f1 as nat, |q: int| None::<NexusHandle>),
            decreases n_in_len - f1,
        {
            input_map.push((SENTINEL, 0));
            input_nexus.push(None);
            f1 = f1 + 1;
        }
        let mut output_map: Vec<(usize, usize)> = Vec::new();
        let mut f2: usize = 0;
        while f2 < n_out_len
            invariant
                f2 <= n_out_len,
                output_map@ =~= Seq::new(f2 as nat, |q: int| (SENTINEL, 0usize)),
            decreases n_out_len - f2,
        {
            output_map.push((SENTINEL, 0));
            f2 = f2 + 1;
        }
        proof {
            assert forall|q: int| 0 <= q < n_in_len implies input_map@[q] == ext_entry(
                nodes,
                nexuses,
                0,
                q as usize,
                true,
            ) && input_nexus@[q] == ext_source_nexus(nodes, 0, q as usize) by {}
            assert forall|q: int| 0 <= q < n_out_len implies output_map@[q] == ext_entry(
                nodes,
                nexuses,
                0,
                q as usize,
                false,
            ) by {}
        }
        let mut g: usize = 0;
        while g < node_slots
            invariant
                g <= node_slots,
                node_slots == nodes.len(),
                nodes == self.spec_nodes(),
                nexuses == self.spec_nexuses(),
                self.wf(),
                ext_indices_ok(nodes),
                nexuses.len() == nexus_map@.len(),
                nexus_map@ == Seq::new(nexuses.len() as nat, |j: int| slot_of_nexus(nexuses, j)),
                n_in_len == ext_len(nodes, nodes.len() as int, true),
                n_out_len == ext_len(nodes, nodes.len() as int, false),
                input_map@.len() == n_in_len,
                input_nexus@.len() == n_in_len,
                output_map@.len() == n_out_len,
                forall|q: int|
                    0 <= q < n_in_len ==> #[trigger] input_map@[q] == ext_entry(
                        nodes,
                        nexuses,
                        g as int,
                        q as usize,
                        true,
                    ),
                forall|q: int|
                    0 <= q < n_in_len ==> #[trigger] input_nexus@[q] == ext_source_nexus(
                        nodes,
                        g as int,
                        q as usize,
                    ),
                forall|q: int|
                    0 <= q < n_out_len ==> #[trigger] output_map@[q] == ext_entry(
                        nodes,
                        nexuses,
                        g as int,
                        q as usize,
                        false,
                    ),
            decreases node_slots - g,
        {
            let ghost pre_im = input_map@;
            let ghost pre_in = input_nexus@;
            let ghost pre_om = output_map@;
            match self.nodes.get(Handle(g)) {
                Some(n) => {
                    let ghost nv = nodes[g as int]->Some_0;
                    match n.component.external_input() {
                        Some(idx) => {
                            proof {
                                lemma_ext_len_mono(nodes, g as int + 1, nodes.len() as int, true);
                            }
                            let nxo: Option<NexusHandle> = if n.outputs.len() > 0 {
                                n.outputs[0]
                            } else {
                                None
                            };
                            let slot = match nxo {
                                Some(nx) => {
                                    let h = nx.index();
                                    if h < nexus_map.len() {
                                        nexus_map[h]
                                    } else {
                                        SENTINEL
                                    }
                                },
                                None => SENTINEL,
                            };
                            let mask = match n.component.output_type(0) {
                                Some(ty) => mask_of(ty.bits),
                                None => 0,
                            };
                            input_map[idx] = (slot, mask);
                            input_nexus[idx] = nxo;
                        },
                        None => {},
                    }
                    match n.component.external_output() {
                        Some(idx) => {
                            proof {
                                lemma_ext_len_mono(nodes, g as int + 1, nodes.len() as int, false);
                            }
                            let nxo: Option<NexusHandle> = if n.inputs.len() > 0 {
                                n.inputs[0]
                            } else {
                                None
                            };
                            let slot = match nxo {
                                Some(nx) => {
                                    let h = nx.index();
                                    if h < nexus_map.len() {
                                        nexus_map[h]
                                    } else {
                                        SENTINEL
                                    }
                                },
                                None => SENTINEL,
                            };
                            let mask = match n.component.input_type(0) {
                                Some(ty) => mask_of(ty.bits),
                                None => 0,
                            };
                            output_map[idx] = (slot, mask);
                        },
                        None => {},
                    }
                },
                None => {},
            }
            proof {
                assert forall|q: int| 0 <= q < n_in_len implies #[trigger] input_map@[q]
                    == ext_entry(nodes, nexuses, g + 1, q as usize, true) && input_nexus@[q]
                    == ext_source_nexus(nodes, g + 1, q as usize) by {
                    assert(pre_im[q] == ext_entry(nodes, nexuses, g as int, q as usize, true));
                    assert(pre_in[q] == ext_source_nexus(nodes, g as int, q as usize));
                }
                assert forall|q: int| 0 <= q < n_out_len implies #[trigger] output_map@[q]
                    == ext_entry(nodes, nexuses, g + 1, q as usize, false) by {
                    assert(pre_om[q] == ext_entry(nodes, nexuses, g as int, q as usize, false));
                }
            }
            g = g + 1;
        }
        // Wake sets: the schedule positions whose inputs touch each external
        // input's nexus.
        let mut input_nodes_map: Vec<Vec<usize>> = Vec::new();
        let mut w: usize = 0;
        while w < n_in_len
            invariant
                w <= n_in_len,
                nodes == self.spec_nodes(),
                nexuses == self.spec_nexuses(),
                self.wf(),
                sched@ == schedg,
                schedg == schedule(nodes),
                sched_len == schedg.len(),
                forall|u: int|
                    0 <= u < schedg.len() ==> (#[trigger] schedg[u]) < nodes.len()
                        && nodes[schedg[u] as int] is Some,
                input_nexus@.len() == n_in_len,
                forall|q: int|
                    0 <= q < n_in_len ==> #[trigger] input_nexus@[q] == ext_source_nexus(
                        nodes,
                        nodes.len() as int,
                        q as usize,
                    ),
                input_nodes_map@.len() == w,
                input_nodes_map@.map(|_i: int, v: Vec<usize>| v@) =~= Seq::new(
                    w as nat,
                    |q: int|
                        fanout(
                            nodes,
                            schedg,
                            ext_source_nexus(nodes, nodes.len() as int, q as usize),
                            schedg.len() as int,
                        ),
                ),
            decreases n_in_len - w,
        {
            let nxo = input_nexus[w];
            let mut fo: Vec<usize> = Vec::new();
            match nxo {
                Some(nx) => {
                    let mut t2: usize = 0;
                    while t2 < sched_len
                        invariant
                            t2 <= sched_len,
                            nodes == self.spec_nodes(),
                            sched@ == schedg,
                            sched_len == schedg.len(),
                            forall|u: int|
                                0 <= u < schedg.len() ==> (#[trigger] schedg[u]) < nodes.len()
                                    && nodes[schedg[u] as int] is Some,
                            fo@ =~= fanout(nodes, schedg, Some(nx), t2 as int),
                        decreases sched_len - t2,
                    {
                        let ni = sched[t2];
                        let node = self.nodes.get(Handle(ni)).unwrap();
                        let ghost nv = nodes[ni as int]->Some_0;
                        let n_ports = node.inputs.len();
                        let mut uses = false;
                        let mut pp: usize = 0;
                        while pp < n_ports
                            invariant
                                pp <= n_ports,
                                n_ports == nv.inputs@.len(),
                                node.inputs@ == nv.inputs@,
                                uses == exists|q: int|
                                    0 <= q < pp && nv.inputs@[q] == Some(nx),
                            decreases n_ports - pp,
                        {
                            let hit = match node.inputs[pp] {
                                Some(h) => h == nx,
                                None => false,
                            };
                            if hit {
                                uses = true;
                                proof {
                                    assert(nv.inputs@[pp as int] == Some(nx));
                                }
                            }
                            pp = pp + 1;
                        }
                        proof {
                            assert(uses == node_uses(nv, nx));
                        }
                        if uses {
                            fo.push(t2);
                        }
                        proof {
                            assert(fo@ =~= fanout(nodes, schedg, Some(nx), t2 + 1));
                        }
                        t2 = t2 + 1;
                    }
                },
                None => {
                    proof {
                        assert(fanout(nodes, schedg, None::<NexusHandle>, schedg.len() as int)
                            =~= Seq::<usize>::empty()) by {
                            lemma_fanout_none(nodes, schedg, schedg.len() as int);
                        }
                    }
                },
            }
            let ghost inm_pre = input_nodes_map@;
            let ghost fo_view = fo@;
            input_nodes_map.push(fo);
            proof {
                assert(fo_view == fanout(
                    nodes,
                    schedg,
                    ext_source_nexus(nodes, nodes.len() as int, w as usize),
                    schedg.len() as int,
                ));
                assert forall|q: int|
                    0 <= q < w + 1 implies input_nodes_map@.map(|_i: int, v: Vec<usize>| v@)[q]
                    == #[trigger] fanout(
                    nodes,
                    schedg,
                    ext_source_nexus(nodes, nodes.len() as int, q as usize),
                    schedg.len() as int,
                ) by {
                    if q < w {
                        assert(input_nodes_map@[q] == inm_pre[q]);
                        assert(inm_pre.map(|_i: int, v: Vec<usize>| v@)[q] == fanout(
                            nodes,
                            schedg,
                            ext_source_nexus(nodes, nodes.len() as int, q as usize),
                            schedg.len() as int,
                        ));
                    } else {
                        assert(input_nodes_map@[q] == fo);
                    }
                }
                assert(input_nodes_map@.map(|_i: int, v: Vec<usize>| v@) =~= Seq::new(
                    (w + 1) as nat,
                    |q: int|
                        fanout(
                            nodes,
                            schedg,
                            ext_source_nexus(nodes, nodes.len() as int, q as usize),
                            schedg.len() as int,
                        ),
                ));
            }
            w = w + 1;
        }
        let program = Program::assemble(
            prog_nodes,
            cursor,
            nexus_map,
            input_map,
            output_map,
            input_nodes_map,
        );
        proof {
            lemma_mem_cursor_ge(nodes, nexuses, schedg, schedg.len() as int);
            lemma_compiled_nodes_valid(
                nodes,
                nexuses,
                schedg,
                schedg.len() as int,
                cursor as nat,
            );
            assert forall|j: int|
                0 <= j < nexuses.len() implies (#[trigger] program.model().nexus_map[j])
                == SENTINEL || program.model().nexus_map[j] < cursor by {
                lemma_slot_in_range(nexuses, j);
            }
            assert forall|j: int|
                0 <= j < program.model().input_map.len() implies (
            #[trigger] program.model().input_map[j]).0 == SENTINEL
                || program.model().input_map[j].0 < cursor by {
                lemma_ext_entry_slot(nodes, nexuses, nodes.len() as int, j as usize, true);
            }
            assert forall|j: int|
                0 <= j < program.model().output_map.len() implies (
            #[trigger] program.model().output_map[j]).0 == SENTINEL
                || program.model().output_map[j].0 < cursor by {
                lemma_ext_entry_slot(nodes, nexuses, nodes.len() as int, j as usize, false);
            }
            let sc = spec_compile(nodes, nexuses);
            assert(program.model().nodes =~= sc.nodes);
            assert(program.model().nexus_map =~= sc.nexus_map);
            assert(program.model().input_map =~= sc.input_map);
            assert(program.model().output_map =~= sc.output_map);
            assert(program.model().input_nodes_map =~= sc.input_nodes_map);
            assert(program.model() == sc);
        }
        program
    }

    /// Remove a node, destroying its port assignments with it. Returns the
    /// component and metadata it held.
    pub fn remove(&mut self, node: GraphNodeHandle) -> (r: Option<(C, M)>)
        requires
            old(self).wf(),
        ensures
            final(self).wf(),
            final(self).spec_nexuses() == old(self).spec_nexuses(),
            match r {
                Some(cm) => {
                    &&& old(self).node_live(node.0.0 as int)
                    &&& old(self).spec_nodes()[node.0.0 as int]->Some_0.component == cm.0
                    &&& old(self).spec_nodes()[node.0.0 as int]->Some_0.meta == cm.1
                    &&& final(self).spec_nodes() == old(self).spec_nodes().update(
                        node.0.0 as int,
                        None::<GraphNode<C, M>>,
                    )
                },
                None => {
                    &&& !old(self).node_live(node.0.0 as int)
                    &&& final(self).spec_nodes() == old(self).spec_nodes()
                },
            },
    {
        let r = match self.nodes.remove(node.0) {
            Some(n) => Some((n.component, n.meta)),
            None => None,
        };
        proof {
            assert forall|j: int|
                #![trigger self.spec_nodes()[j]]
                self.node_live(j) implies node_wf(self.spec_nodes()[j]->Some_0) by {
                assert(self.spec_nodes()[j] == old(self).spec_nodes()[j]);
            }
        }
        r
    }

    /// Remove a nexus, disconnecting every port assigned to it. Returns its
    /// userdata.
    #[verifier::loop_isolation(false)]
    pub fn remove_nexus(&mut self, nexus: NexusHandle) -> (r: Option<U>)
        requires
            old(self).wf(),
        ensures
            final(self).wf(),
            match r {
                Some(u) => {
                    &&& old(self).nexus_live(nexus.0.0 as int)
                    &&& old(self).spec_nexuses()[nexus.0.0 as int]->Some_0.userdata == u
                    &&& final(self).spec_nexuses() == old(self).spec_nexuses().update(
                        nexus.0.0 as int,
                        None::<Nexus<U>>,
                    )
                    &&& final(self).spec_nodes().len() == old(self).spec_nodes().len()
                    &&& forall|j: int|
                        0 <= j < old(self).spec_nodes().len() ==> ((#[trigger] old(
                            self,
                        ).spec_nodes()[j]) is Some <==> final(self).spec_nodes()[j] is Some)
                    &&& forall|j: int|
                        0 <= j < old(self).spec_nodes().len() && (#[trigger] old(
                            self,
                        ).spec_nodes()[j]) is Some ==> node_disconnected(
                            old(self).spec_nodes()[j]->Some_0,
                            final(self).spec_nodes()[j]->Some_0,
                            nexus,
                        )
                },
                None => {
                    &&& !old(self).nexus_live(nexus.0.0 as int)
                    &&& final(self).spec_nodes() == old(self).spec_nodes()
                    &&& final(self).spec_nexuses() == old(self).spec_nexuses()
                },
            },
    {
        if self.nexuses.get(nexus.0).is_none() {
            return None;
        }
        let node_slots = self.nodes.slot_count();
        let ghost nodes_pre = self.spec_nodes();
        let mut i: usize = 0;
        while i < node_slots
            invariant
                i <= node_slots,
                self.arenas_wf(),
                self.spec_nodes().len() == nodes_pre.len(),
                self.spec_nexuses() == old(self).spec_nexuses(),
                forall|j: int|
                    0 <= j < node_slots ==> ((#[trigger] nodes_pre[j]) is Some
                        <==> self.spec_nodes()[j] is Some),
                forall|j: int|
                    0 <= j < i && (#[trigger] nodes_pre[j]) is Some ==> node_disconnected(
                        nodes_pre[j]->Some_0,
                        self.spec_nodes()[j]->Some_0,
                        nexus,
                    ),
                forall|j: int| i <= j < node_slots ==> self.spec_nodes()[j] == nodes_pre[j],
            decreases node_slots - i,
        {
            let ghost before = self.spec_nodes();
            match self.nodes.get_mut(Handle(i)) {
                Some(node) => {
                    let ghost orig = *node;
                    let n_in = node.inputs.len();
                    let mut p: usize = 0;
                    while p < n_in
                        invariant
                            n_in == node.inputs.len(),
                            p <= n_in,
                            node.component == orig.component,
                            node.meta == orig.meta,
                            node.outputs == orig.outputs,
                            node.inputs@.len() == orig.inputs@.len(),
                            forall|q: int|
                                0 <= q < p ==> node.inputs@[q] == drop_assignment(
                                    orig.inputs@[q],
                                    nexus,
                                ),
                            forall|q: int| p <= q < n_in ==> node.inputs@[q] == orig.inputs@[q],
                        decreases n_in - p,
                    {
                        let hit = match &node.inputs[p] {
                            Some(nx) => *nx == nexus,
                            None => false,
                        };
                        if hit {
                            node.inputs[p] = None;
                        }
                        p = p + 1;
                    }
                    let n_out = node.outputs.len();
                    let mut p2: usize = 0;
                    while p2 < n_out
                        invariant
                            n_out == node.outputs.len(),
                            p2 <= n_out,
                            node.component == orig.component,
                            node.meta == orig.meta,
                            node.inputs@.len() == orig.inputs@.len(),
                            forall|q: int|
                                0 <= q < orig.inputs@.len() ==> node.inputs@[q] == drop_assignment(
                                    orig.inputs@[q],
                                    nexus,
                                ),
                            node.outputs@.len() == orig.outputs@.len(),
                            forall|q: int|
                                0 <= q < p2 ==> node.outputs@[q] == drop_assignment(
                                    orig.outputs@[q],
                                    nexus,
                                ),
                            forall|q: int| p2 <= q < n_out ==> node.outputs@[q] == orig.outputs@[q],
                        decreases n_out - p2,
                    {
                        let hit = match &node.outputs[p2] {
                            Some(nx) => *nx == nexus,
                            None => false,
                        };
                        if hit {
                            node.outputs[p2] = None;
                        }
                        p2 = p2 + 1;
                    }
                },
                None => {},
            }
            proof {
                assert forall|j: int|
                    0 <= j < i + 1 && (#[trigger] nodes_pre[j]) is Some implies node_disconnected(
                    nodes_pre[j]->Some_0,
                    self.spec_nodes()[j]->Some_0,
                    nexus,
                ) by {
                    if j < i {
                        assert(self.spec_nodes()[j] == before[j]);
                    }
                }
            }
            i = i + 1;
        }
        let r = match self.nexuses.remove(nexus.0) {
            Some(nx) => Some(nx.userdata),
            None => {
                proof {
                    assert(false);
                }
                None
            },
        };
        proof {
            assert forall|j: int|
                #![trigger self.spec_nodes()[j]]
                self.node_live(j) implies node_wf(self.spec_nodes()[j]->Some_0) by {
                assert(nodes_pre[j] is Some);
                assert(node_wf(nodes_pre[j]->Some_0));
            }
        }
        r
    }

    /// Iterate the live nodes in handle order.
    pub fn nodes(&self) -> (r: GraphIter<'_, C, M>)
        ensures
            r.spec_nodes() == self.spec_nodes(),
            r.spec_index() == 0,
    {
        GraphIter { iter: self.nodes.iter() }
    }

    /// Number of node slots (live and free).
    pub fn node_slot_count(&self) -> (r: usize)
        ensures
            r == self.spec_nodes().len(),
    {
        self.nodes.slot_count()
    }

    /// Number of nexus slots (live and free).
    pub fn nexus_slot_count(&self) -> (r: usize)
        ensures
            r == self.spec_nexuses().len(),
    {
        self.nexuses.slot_count()
    }
}

impl<C, M> Graph<C, M, Vec<usize>> where C: Component {
    /// Merge nexus `b` into nexus `a`: every port assigned to `b` is
    /// reassigned to `a`, `b`'s userdata is appended to `a`'s, and `b` is
    /// destroyed. Returns the kept handle.
    pub fn merge_nexuses(&mut self, a: NexusHandle, b: NexusHandle) -> (r: NexusHandle)
        requires
            old(self).wf(),
            old(self).nexus_live(a.0.0 as int),
            old(self).nexus_live(b.0.0 as int),
            a != b,
        ensures
            final(self).wf(),
            r == a,
            final(self).spec_nodes().len() == old(self).spec_nodes().len(),
            forall|j: int|
                0 <= j < old(self).spec_nodes().len() ==> (old(self).spec_nodes()[j] is Some
                    <==> final(self).spec_nodes()[j] is Some),
            forall|j: int|
                0 <= j < old(self).spec_nodes().len() && old(self).spec_nodes()[j] is Some
                    ==> node_replaced(
                    (#[trigger] old(self).spec_nodes()[j])->Some_0,
                    final(self).spec_nodes()[j]->Some_0,
                    b,
                    a,
                ),
            final(self).spec_nexuses().len() == old(self).spec_nexuses().len(),
            final(self).spec_nexuses()[b.0.0 as int] is None,
            final(self).spec_nexuses()[a.0.0 as int] matches Some(nx) && nx.userdata@ == old(self).spec_nexuses()[a.0.0 as int]->Some_0.userdata@ + old(self).spec_nexuses()[b.0.0 as int]->Some_0.userdata@,
            forall|j: int|
                0 <= j < old(self).spec_nexuses().len() && j != a.0.0 && j != b.0.0 ==> final(self).spec_nexuses()[j] == old(self).spec_nexuses()[j],
    {
        let mut b_data = match self.nexuses.remove(b.0) {
            Some(nx) => nx.userdata,
            None => {
                proof {
                    assert(false);
                }
                Vec::new()
            },
        };
        match self.nexuses.get_mut(a.0) {
            Some(nx) => {
                nx.userdata.append(&mut b_data);
            },
            None => {
                proof {
                    assert(false);
                }
            },
        }
        let node_slots = self.nodes.slot_count();
        let ghost nodes_pre = self.spec_nodes();
        let ghost nexuses_mid = self.spec_nexuses();
        let mut i: usize = 0;
        while i < node_slots
            invariant
                self.arenas_wf(),
                node_slots == self.spec_nodes().len(),
                i <= node_slots,
                self.spec_nexuses() == nexuses_mid,
                nodes_pre == old(self).spec_nodes(),
                forall|j: int|
                    0 <= j < node_slots ==> (nodes_pre[j] is Some <==> self.spec_nodes()[j]
                        is Some),
                forall|j: int|
                    0 <= j < i && nodes_pre[j] is Some ==> node_replaced(
                        (#[trigger] nodes_pre[j])->Some_0,
                        self.spec_nodes()[j]->Some_0,
                        b,
                        a,
                    ),
                forall|j: int| i <= j < node_slots ==> self.spec_nodes()[j] == nodes_pre[j],
            decreases node_slots - i,
        {
            let ghost before = self.spec_nodes();
            match self.nodes.get_mut(Handle(i)) {
                Some(node) => {
                    let ghost orig = *node;
                    let n_in = node.inputs.len();
                    let mut p: usize = 0;
                    while p < n_in
                        invariant
                            n_in == node.inputs.len(),
                            p <= n_in,
                            node.component == orig.component,
                            node.meta == orig.meta,
                            node.outputs == orig.outputs,
                            node.inputs@.len() == orig.inputs@.len(),
                            forall|q: int|
                                0 <= q < p ==> node.inputs@[q] == replace_assignment(
                                    orig.inputs@[q],
                                    b,
                                    a,
                                ),
                            forall|q: int| p <= q < n_in ==> node.inputs@[q] == orig.inputs@[q],
                        decreases n_in - p,
                    {
                        let hit = match &node.inputs[p] {
                            Some(nx) => *nx == b,
                            None => false,
                        };
                        if hit {
                            node.inputs[p] = Some(a);
                        }
                        p = p + 1;
                    }
                    let n_out = node.outputs.len();
                    let mut p2: usize = 0;
                    while p2 < n_out
                        invariant
                            n_out == node.outputs.len(),
                            p2 <= n_out,
                            node.component == orig.component,
                            node.meta == orig.meta,
                            node.inputs@.len() == orig.inputs@.len(),
                            forall|q: int|
                                0 <= q < orig.inputs@.len() ==> node.inputs@[q]
                                    == replace_assignment(orig.inputs@[q], b, a),
                            node.outputs@.len() == orig.outputs@.len(),
                            forall|q: int|
                                0 <= q < p2 ==> node.outputs@[q] == replace_assignment(
                                    orig.outputs@[q],
                                    b,
                                    a,
                                ),
                            forall|q: int| p2 <= q < n_out ==> node.outputs@[q] == orig.outputs@[q],
                        decreases n_out - p2,
                    {
                        let hit = match &node.outputs[p2] {
                            Some(nx) => *nx == b,
                            None => false,
                        };
                        if hit {
                            node.outputs[p2] = Some(a);
                        }
                        p2 = p2 + 1;
                    }
                },
                None => {},
            }
            proof {
                assert forall|j: int|
                    0 <= j < i + 1 && nodes_pre[j] is Some implies node_replaced(
                    (#[trigger] nodes_pre[j])->Some_0,
                    self.spec_nodes()[j]->Some_0,
                    b,
                    a,
                ) by {
                    if j < i {
                        assert(self.spec_nodes()[j] == before[j]);
                    }
                }
            }
            i = i + 1;
        }
        proof {
            assert forall|j: int|
                #![trigger self.spec_nodes()[j]]
                self.node_live(j) implies node_wf(self.spec_nodes()[j]->Some_0) by {
                assert(nodes_pre[j] is Some);
                assert(node_wf(nodes_pre[j]->Some_0));
            }
        }
        a
    }
}

/// `x` with `from` cleared.
pub open spec fn drop_assignment(x: Option<NexusHandle>, from: NexusHandle) -> Option<
    NexusHandle,
> {
    if x == Some(from) {
        None
    } else {
        x
    }
}

/// `n2` is `n` with every assignment of `from` cleared.
pub open spec fn node_disconnected<C, M>(
    n: GraphNode<C, M>,
    n2: GraphNode<C, M>,
    from: NexusHandle,
) -> bool {
    &&& n2.component == n.component
    &&& n2.meta == n.meta
    &&& n2.inputs@.len() == n.inputs@.len()
    &&& forall|p: int|
        0 <= p < n.inputs@.len() ==> n2.inputs@[p] == drop_assignment(n.inputs@[p], from)
    &&& n2.outputs@.len() == n.outputs@.len()
    &&& forall|p: int|
        0 <= p < n.outputs@.len() ==> n2.outputs@[p] == drop_assignment(n.outputs@[p], from)
}

/// `x` with `from` replaced by `to`.
pub open spec fn replace_assignment(
    x: Option<NexusHandle>,
    from: NexusHandle,
    to: NexusHandle,
) -> Option<NexusHandle> {
    if x == Some(from) {
        Some(to)
    } else {
        x
    }
}

/// `n2` is `n` with every assignment of `from` replaced by `to`.
pub open spec fn node_replaced<C, M>(
    n: GraphNode<C, M>,
    n2: GraphNode<C, M>,
    from: NexusHandle,
    to: NexusHandle,
) -> bool {
    &&& n2.component == n.component
    &&& n2.meta == n.meta
    &&& n2.inputs@.len() == n.inputs@.len()
    &&& forall|p: int|
        0 <= p < n.inputs@.len() ==> n2.inputs@[p] == replace_assignment(n.inputs@[p], from, to)
    &&& n2.outputs@.len() == n.outputs@.len()
    &&& forall|p: int|
        0 <= p < n.outputs@.len() ==> n2.outputs@[p] == replace_assignment(
            n.outputs@[p],
            from,
            to,
        )
}

/// The derived input-port set of a nexus: all `(node slot, port index)`
/// pairs whose assignment is that nexus.
pub open spec fn nexus_input_ports<C: Component, M, U>(
    g: Graph<C, M, U>,
    nx: NexusHandle,
) -> Set<(int, int)> {
    Set::new(
        |t: (int, int)|
            g.node_live(t.0) && 0 <= t.1 < g.spec_nodes()[t.0]->Some_0.inputs@.len()
                && g.spec_nodes()[t.0]->Some_0.inputs@[t.1] == Some(nx),
    )
}

/// The derived output-port set of a nexus.
pub open spec fn nexus_output_ports<C: Component, M, U>(
    g: Graph<C, M, U>,
    nx: NexusHandle,
) -> Set<(int, int)> {
    Set::new(
        |t: (int, int)|
            g.node_live(t.0) && 0 <= t.1 < g.spec_nodes()[t.0]->Some_0.outputs@.len()
                && g.spec_nodes()[t.0]->Some_0.outputs@[t.1] == Some(nx),
    )
}

/// Port uniqueness: at all times, each port appears in at most one nexus.
/// The port-to-nexus relation is stored as a function of the port, so a
/// port found in the port sets of two nexuses forces them to be the same
/// nexus.
pub proof fn lemma_port_uniqueness<C: Component, M, U>(
    g: Graph<C, M, U>,
    a: NexusHandle,
    b: NexusHandle,
    port: (int, int),
)
    requires
        (nexus_input_ports(g, a).contains(port) && nexus_input_ports(g, b).contains(port)) || (
        nexus_output_ports(g, a).contains(port) && nexus_output_ports(g, b).contains(port)),
    ensures
        a == b,
{
}

/// A node's port tables match its component's port counts.
pub open spec fn node_wf<C: Component, M>(n: GraphNode<C, M>) -> bool {
    &&& n.inputs.len() == n.component.spec_input_count()
    &&& n.outputs.len() == n.component.spec_output_count()
}

/// The node a port belongs to.
pub open spec fn port_node(port: Port) -> GraphNodeHandle {
    match port {
        Port::Input { node, .. } => node,
        Port::Output { node, .. } => node,
    }
}

/// The port's index is within its node's port table.
pub open spec fn port_in_range<C, M>(nodes: Seq<Option<GraphNode<C, M>>>, port: Port) -> bool {
    match port {
        Port::Input { node, port } => (port as int) < nodes[node.0.0 as int]->Some_0.inputs.len(),
        Port::Output { node, port } => (port as int)
            < nodes[node.0.0 as int]->Some_0.outputs.len(),
    }
}

/// `post` equals `pre` except that the one assignment addressed by `port`
/// now holds `nexus`.
pub open spec fn reassigned<C, M>(
    pre: Seq<Option<GraphNode<C, M>>>,
    post: Seq<Option<GraphNode<C, M>>>,
    port: Port,
    nexus: Option<NexusHandle>,
) -> bool {
    let i = port_node(port).0.0 as int;
    &&& post.len() == pre.len()
    &&& forall|j: int| 0 <= j < pre.len() && j != i ==> post[j] == pre[j]
    &&& pre[i] is Some
    &&& post[i] is Some
    &&& {
        let n = pre[i]->Some_0;
        let n2 = post[i]->Some_0;
        &&& n2.component == n.component
        &&& n2.meta == n.meta
        &&& match port {
            Port::Input { node, port } => {
                &&& n2.outputs == n.outputs
                &&& n2.inputs@ =~= n.inputs@.update(port as int, nexus)
            },
            Port::Output { node, port } => {
                &&& n2.inputs == n.inputs
                &&& n2.outputs@ =~= n.outputs@.update(port as int, nexus)
            },
        }
    }
}

/// `a + b`, saturating at the word limit.
pub open spec fn sat_add(a: usize, b: usize) -> usize {
    if a + b <= usize::MAX {
        (a + b) as usize
    } else {
        usize::MAX
    }
}

fn sat_add_exec(a: usize, b: usize) -> (r: usize)
    ensures
        r == sat_add(a, b),
{
    if a <= usize::MAX - b {
        a + b
    } else {
        usize::MAX
    }
}

/// Number of live nexuses among the first `k` slots.
pub open spec fn live_count<U>(nexuses: Seq<Option<Nexus<U>>>, k: int) -> int
    decreases k,
{
    if k <= 0 {
        0
    } else {
        live_count(nexuses, k - 1) + (if nexuses[k - 1] is Some {
            1int
        } else {
            0int
        })
    }
}

/// The dense memory slot of a nexus: its rank among the live nexuses, or
/// [`SENTINEL`] for a dead or out-of-range slot.
pub open spec fn slot_of_nexus<U>(nexuses: Seq<Option<Nexus<U>>>, i: int) -> usize {
    if 0 <= i < nexuses.len() && nexuses[i] is Some {
        live_count(nexuses, i) as usize
    } else {
        SENTINEL
    }
}

/// The memory slot of a port assignment; [`SENTINEL`] when unconnected.
pub open spec fn slot_of_assignment<U>(
    nexuses: Seq<Option<Nexus<U>>>,
    a: Option<NexusHandle>,
) -> usize {
    match a {
        Some(nx) => slot_of_nexus(nexuses, nx.0.0 as int),
        None => SENTINEL,
    }
}

proof fn lemma_live_count_bounds<U>(nexuses: Seq<Option<Nexus<U>>>, k: int)
    requires
        0 <= k <= nexuses.len(),
    ensures
        0 <= live_count(nexuses, k) <= k,
    decreases k,
{
    if k > 0 {
        lemma_live_count_bounds(nexuses, k - 1);
    }
}

proof fn lemma_live_count_mono<U>(nexuses: Seq<Option<Nexus<U>>>, i: int, k: int)
    requires
        0 <= i < k <= nexuses.len(),
        nexuses[i] is Some,
    ensures
        live_count(nexuses, i) < live_count(nexuses, k),
    decreases k,
{
    if k > i + 1 {
        lemma_live_count_mono(nexuses, i, k - 1);
    }
}

/// A slot is either [`SENTINEL`] or below the live nexus total.
proof fn lemma_slot_in_range<U>(nexuses: Seq<Option<Nexus<U>>>, i: int)
    requires
        nexuses.len() <= usize::MAX,
    ensures
        slot_of_nexus(nexuses, i) == SENTINEL || (slot_of_nexus(nexuses, i) as int) < live_count(
            nexuses,
            nexuses.len() as int,
        ),
{
    if 0 <= i < nexuses.len() && nexuses[i] is Some {
        lemma_live_count_bounds(nexuses, i);
        lemma_live_count_mono(nexuses, i, nexuses.len() as int);
    }
}

/// Indices of the live nodes whose "is a source" status matches `sources`,
/// among the first `k` slots, in ascending order.
pub open spec fn sched_filter<C: Component, M>(
    nodes: Seq<Option<GraphNode<C, M>>>,
    k: int,
    sources: bool,
) -> Seq<usize>
    decreases k,
{
    if k <= 0 {
        Seq::empty()
    } else {
        sched_filter(nodes, k - 1, sources) + (if nodes[k - 1] is Some && ((nodes[k
            - 1]->Some_0.component.spec_input_count() == 0) == sources) {
            seq![(k - 1) as usize]
        } else {
            Seq::empty()
        })
    }
}

/// Evaluation order: pure sources first, remaining nodes after, each group
/// in handle order.
pub open spec fn schedule<C: Component, M>(nodes: Seq<Option<GraphNode<C, M>>>) -> Seq<usize> {
    sched_filter(nodes, nodes.len() as int, true) + sched_filter(nodes, nodes.len() as int, false)
}

proof fn lemma_sched_filter_props<C: Component, M>(
    nodes: Seq<Option<GraphNode<C, M>>>,
    k: int,
    sources: bool,
)
    requires
        0 <= k <= nodes.len(),
        nodes.len() <= usize::MAX,
    ensures
        forall|t: int|
            0 <= t < sched_filter(nodes, k, sources).len() ==> (#[trigger] sched_filter(
                nodes,
                k,
                sources,
            )[t]) < k && nodes[sched_filter(nodes, k, sources)[t] as int] is Some,
    decreases k,
{
    if k > 0 {
        lemma_sched_filter_props(nodes, k - 1, sources);
        let s = sched_filter(nodes, k, sources);
        let prev = sched_filter(nodes, k - 1, sources);
        assert forall|t: int| 0 <= t < s.len() implies (#[trigger] s[t]) < k && nodes[s[t] as int]
            is Some by {
            if t < prev.len() {
                assert(s[t] == prev[t]);
            } else {
                assert(s[t] == (k - 1) as usize);
            }
        }
    }
}

/// Every scheduled entry is a live node slot.
proof fn lemma_schedule_props<C: Component, M>(nodes: Seq<Option<GraphNode<C, M>>>)
    requires
        nodes.len() <= usize::MAX,
    ensures
        forall|t: int|
            0 <= t < schedule(nodes).len() ==> (#[trigger] schedule(nodes)[t]) < nodes.len()
                && nodes[schedule(nodes)[t] as int] is Some,
{
    lemma_sched_filter_props(nodes, nodes.len() as int, true);
    lemma_sched_filter_props(nodes, nodes.len() as int, false);
}

/// One `CheckDirty` per connected output slot of a node scheduled at `t`.
pub open spec fn cd_ops(oslots: Seq<usize>, k: int, t: usize) -> Seq<OpModel>
    decreases k,
{
    if k <= 0 {
        Seq::empty()
    } else {
        cd_ops(oslots, k - 1, t) + (if oslots[k - 1] != SENTINEL {
            seq![OpModel::CheckDirty { a: oslots[k - 1], node: t }]
        } else {
            Seq::empty()
        })
    }
}

pub open spec fn node_input_slots<C, M, U>(
    nexuses: Seq<Option<Nexus<U>>>,
    n: GraphNode<C, M>,
) -> Seq<usize> {
    n.inputs@.map(|_i: int, a: Option<NexusHandle>| slot_of_assignment(nexuses, a))
}

pub open spec fn node_output_slots<C, M, U>(
    nexuses: Seq<Option<Nexus<U>>>,
    n: GraphNode<C, M>,
) -> Seq<usize> {
    n.outputs@.map(|_i: int, a: Option<NexusHandle>| slot_of_assignment(nexuses, a))
}

/// The full instruction sequence of one scheduled node: the component's own
/// emission followed by the dirty checks on its outputs.
pub open spec fn node_ops<C: Component, M, U>(
    nexuses: Seq<Option<Nexus<U>>>,
    n: GraphNode<C, M>,
    t: usize,
) -> Seq<OpModel> {
    let oslots = node_output_slots(nexuses, n);
    n.component.spec_ir(node_input_slots(nexuses, n), oslots) + cd_ops(
        oslots,
        oslots.len() as int,
        t,
    )
}

/// The instruction sequences of the first `k` scheduled nodes.
pub open spec fn compiled_nodes<C: Component, M, U>(
    nodes: Seq<Option<GraphNode<C, M>>>,
    nexuses: Seq<Option<Nexus<U>>>,
    sched: Seq<usize>,
    k: int,
) -> Seq<Seq<OpModel>>
    decreases k,
{
    if k <= 0 {
        Seq::empty()
    } else {
        compiled_nodes(nodes, nexuses, sched, k - 1).push(
            node_ops(nexuses, nodes[sched[k - 1] as int]->Some_0, (k - 1) as usize),
        )
    }
}

/// The memory cursor after the first `k` scheduled nodes reserved their
/// extra memory, starting from the live nexus count.
pub open spec fn mem_cursor<C: Component, M, U>(
    nodes: Seq<Option<GraphNode<C, M>>>,
    nexuses: Seq<Option<Nexus<U>>>,
    sched: Seq<usize>,
    k: int,
) -> usize
    decreases k,
{
    if k <= 0 {
        live_count(nexuses, nexuses.len() as int) as usize
    } else {
        sat_add(
            mem_cursor(nodes, nexuses, sched, k - 1),
            nodes[sched[k - 1] as int]->Some_0.component.spec_extra_memory(),
        )
    }
}

proof fn lemma_mem_cursor_ge<C: Component, M, U>(
    nodes: Seq<Option<GraphNode<C, M>>>,
    nexuses: Seq<Option<Nexus<U>>>,
    sched: Seq<usize>,
    k: int,
)
    requires
        k >= 0,
        nexuses.len() <= usize::MAX,
    ensures
        mem_cursor(nodes, nexuses, sched, k) >= live_count(nexuses, nexuses.len() as int),
    decreases k,
{
    lemma_live_count_bounds(nexuses, nexuses.len() as int);
    if k > 0 {
        lemma_mem_cursor_ge(nodes, nexuses, sched, k - 1);
    }
}

/// The external index a component exposes on the given side.
pub open spec fn ext_index_of<C: Component, M>(n: GraphNode<C, M>, input: bool) -> Option<usize> {
    if input {
        n.component.spec_external_input()
    } else {
        n.component.spec_external_output()
    }
}

/// Length of the boundary map on the given side: one past the largest
/// external index among the first `k` node slots.
pub open spec fn ext_len<C: Component, M>(
    nodes: Seq<Option<GraphNode<C, M>>>,
    k: int,
    input: bool,
) -> int
    decreases k,
{
    if k <= 0 {
        0
    } else {
        let rest = ext_len(nodes, k - 1, input);
        let here = if nodes[k - 1] is Some {
            ext_index_of(nodes[k - 1]->Some_0, input)
        } else {
            None
        };
        match here {
            Some(idx) => if idx + 1 > rest {
                idx + 1
            } else {
                rest
            },
            None => rest,
        }
    }
}

proof fn lemma_ext_len_mono<C: Component, M>(
    nodes: Seq<Option<GraphNode<C, M>>>,
    i: int,
    k: int,
    input: bool,
)
    requires
        0 <= i <= k,
    ensures
        ext_len(nodes, i, input) <= ext_len(nodes, k, input),
    decreases k,
{
    if k > i {
        lemma_ext_len_mono(nodes, i, k - 1, input);
    }
}

/// The nexus a boundary component touches: its single output (for an
/// external input) or its single input (for an external output).
pub open spec fn boundary_nexus<C, M>(n: GraphNode<C, M>, input: bool) -> Option<NexusHandle> {
    if input {
        if n.outputs@.len() > 0 {
            n.outputs@[0]
        } else {
            None
        }
    } else {
        if n.inputs@.len() > 0 {
            n.inputs@[0]
        } else {
            None
        }
    }
}

/// The mask of a boundary component: the width of its boundary port.
pub open spec fn boundary_mask<C: Component, M>(n: GraphNode<C, M>, input: bool) -> usize {
    if input {
        match n.component.spec_output_type(0) {
            Some(t) => spec_mask_of(t.bits),
            None => 0,
        }
    } else {
        match n.component.spec_input_type(0) {
            Some(t) => spec_mask_of(t.bits),
            None => 0,
        }
    }
}

/// The boundary map entry for external index `idx` on the given side: the
/// slot and mask of the last live node carrying that index among the first
/// `k` slots, or `(SENTINEL, 0)` if there is none.
pub open spec fn ext_entry<C: Component, M, U>(
    nodes: Seq<Option<GraphNode<C, M>>>,
    nexuses: Seq<Option<Nexus<U>>>,
    k: int,
    idx: usize,
    input: bool,
) -> (usize, usize)
    decreases k,
{
    if k <= 0 {
        (SENTINEL, 0usize)
    } else if nodes[k - 1] is Some && ext_index_of(nodes[k - 1]->Some_0, input) == Some(idx) {
        (
            slot_of_assignment(nexuses, boundary_nexus(nodes[k - 1]->Some_0, input)),
            boundary_mask(nodes[k - 1]->Some_0, input),
        )
    } else {
        ext_entry(nodes, nexuses, k - 1, idx, input)
    }
}

/// The output nexus of the last live `In` node with external index `idx`.
pub open spec fn ext_source_nexus<C: Component, M>(
    nodes: Seq<Option<GraphNode<C, M>>>,
    k: int,
    idx: usize,
) -> Option<NexusHandle>
    decreases k,
{
    if k <= 0 {
        None
    } else if nodes[k - 1] is Some && ext_index_of(nodes[k - 1]->Some_0, true) == Some(idx) {
        boundary_nexus(nodes[k - 1]->Some_0, true)
    } else {
        ext_source_nexus(nodes, k - 1, idx)
    }
}

/// Some input port of `n` is assigned to `nx`.
pub open spec fn node_uses<C, M>(n: GraphNode<C, M>, nx: NexusHandle) -> bool {
    exists|p: int| 0 <= p < n.inputs@.len() && n.inputs@[p] == Some(nx)
}

/// Schedule positions of the nodes whose inputs touch `nxo`, among the
/// first `k` scheduled nodes.
pub open spec fn fanout<C: Component, M>(
    nodes: Seq<Option<GraphNode<C, M>>>,
    sched: Seq<usize>,
    nxo: Option<NexusHandle>,
    k: int,
) -> Seq<usize>
    decreases k,
{
    if k <= 0 {
        Seq::empty()
    } else {
        fanout(nodes, sched, nxo, k - 1) + (if nxo matches Some(nx) && node_uses(
            nodes[sched[k - 1] as int]->Some_0,
            nx,
        ) {
            seq![(k - 1) as usize]
        } else {
            Seq::empty()
        })
    }
}

/// Every external index is below the word limit, so the boundary maps can
/// be allocated.
pub open spec fn ext_indices_ok<C: Component, M>(nodes: Seq<Option<GraphNode<C, M>>>) -> bool {
    forall|i: int|
        0 <= i < nodes.len() && (#[trigger] nodes[i]) is Some ==> {
            &&& (nodes[i]->Some_0.component.spec_external_input() matches Some(idx) ==> idx
                < usize::MAX)
            &&& (nodes[i]->Some_0.component.spec_external_output() matches Some(idx) ==> idx
                < usize::MAX)
        }
}

/// The compiled image of a graph: slot assignment, schedule, per-node
/// emission and boundary maps, as one deterministic function.
pub open spec fn spec_compile<C: Component, M, U>(
    nodes: Seq<Option<GraphNode<C, M>>>,
    nexuses: Seq<Option<Nexus<U>>>,
) -> crate::program::ProgramModel {
    let sched = schedule(nodes);
    let n_in = ext_len(nodes, nodes.len() as int, true);
    let n_out = ext_len(nodes, nodes.len() as int, false);
    crate::program::ProgramModel {
        nodes: compiled_nodes(nodes, nexuses, sched, sched.len() as int),
        memory_size: mem_cursor(nodes, nexuses, sched, sched.len() as int),
        nexus_map: Seq::new(nexuses.len(), |i: int| slot_of_nexus(nexuses, i)),
        input_map: Seq::new(
            n_in as nat,
            |idx: int| ext_entry(nodes, nexuses, nodes.len() as int, idx as usize, true),
        ),
        output_map: Seq::new(
            n_out as nat,
            |idx: int| ext_entry(nodes, nexuses, nodes.len() as int, idx as usize, false),
        ),
        input_nodes_map: Seq::new(
            n_in as nat,
            |idx: int|
                fanout(
                    nodes,
                    sched,
                    ext_source_nexus(nodes, nodes.len() as int, idx as usize),
                    sched.len() as int,
                ),
        ),
    }
}

proof fn lemma_ops_valid_add(a: Seq<OpModel>, b: Seq<OpModel>, ms: nat)
    requires
        ops_valid(a, ms),
        ops_valid(b, ms),
    ensures
        ops_valid(a + b, ms),
{
    assert forall|j: int| 0 <= j < (a + b).len() implies op_valid(#[trigger] (a + b)[j], ms) by {
        if j < a.len() {
            assert((a + b)[j] == a[j]);
        } else {
            assert((a + b)[j] == b[j - a.len()]);
        }
    }
}

proof fn lemma_cd_ops_valid(oslots: Seq<usize>, k: int, t: usize, ms: nat)
    requires
        0 <= k <= oslots.len(),
        forall|q: int| 0 <= q < oslots.len() ==> (#[trigger] oslots[q]) == SENTINEL || oslots[q] < ms,
    ensures
        ops_valid(cd_ops(oslots, k, t), ms),
    decreases k,
{
    if k > 0 {
        lemma_cd_ops_valid(oslots, k - 1, t, ms);
        if oslots[k - 1] != SENTINEL {
            lemma_ops_valid_add(
                cd_ops(oslots, k - 1, t),
                seq![OpModel::CheckDirty { a: oslots[k - 1], node: t }],
                ms,
            );
        } else {
            lemma_ops_valid_add(cd_ops(oslots, k - 1, t), Seq::empty(), ms);
        }
    }
}

/// Every instruction of every compiled node names only slots below `ms`.
proof fn lemma_compiled_nodes_valid<C: Component, M, U>(
    nodes: Seq<Option<GraphNode<C, M>>>,
    nexuses: Seq<Option<Nexus<U>>>,
    sched: Seq<usize>,
    k: int,
    ms: nat,
)
    requires
        0 <= k <= sched.len(),
        nexuses.len() <= usize::MAX,
        live_count(nexuses, nexuses.len() as int) <= ms,
        forall|u: int|
            0 <= u < sched.len() ==> (#[trigger] sched[u]) < nodes.len() && nodes[sched[u] as int]
                is Some,
    ensures
        compiled_nodes(nodes, nexuses, sched, k).len() == k,
        forall|u: int|
            0 <= u < k ==> ops_valid(#[trigger] compiled_nodes(nodes, nexuses, sched, k)[u], ms),
    decreases k,
{
    if k > 0 {
        lemma_compiled_nodes_valid(nodes, nexuses, sched, k - 1, ms);
        let nv = nodes[sched[k - 1] as int]->Some_0;
        let islots = node_input_slots(nexuses, nv);
        let oslots = node_output_slots(nexuses, nv);
        assert forall|q: int|
            0 <= q < islots.len() implies islots[q] == SENTINEL || #[trigger] islots[q] < ms by {
            match nv.inputs@[q] {
                Some(nx) => lemma_slot_in_range(nexuses, nx.0.0 as int),
                None => (),
            }
        }
        assert forall|q: int|
            0 <= q < oslots.len() implies oslots[q] == SENTINEL || #[trigger] oslots[q] < ms by {
            match nv.outputs@[q] {
                Some(nx) => lemma_slot_in_range(nexuses, nx.0.0 as int),
                None => (),
            }
        }
        nv.component.lemma_ir_valid(islots, oslots, ms);
        lemma_cd_ops_valid(oslots, oslots.len() as int, (k - 1) as usize, ms);
        lemma_ops_valid_add(
            nv.component.spec_ir(islots, oslots),
            cd_ops(oslots, oslots.len() as int, (k - 1) as usize),
            ms,
        );
        let whole = compiled_nodes(nodes, nexuses, sched, k);
        let prev = compiled_nodes(nodes, nexuses, sched, k - 1);
        assert forall|u: int| 0 <= u < k implies ops_valid(#[trigger] whole[u], ms) by {
            if u < k - 1 {
                assert(whole[u] == prev[u]);
            } else {
                assert(whole[u] == node_ops(nexuses, nv, (k - 1) as usize));
            }
        }
    }
}

/// The fan-out of an unconnected input is empty.
proof fn lemma_fanout_none<C: Component, M>(
    nodes: Seq<Option<GraphNode<C, M>>>,
    sched: Seq<usize>,
    k: int,
)
    ensures
        fanout(nodes, sched, None::<NexusHandle>, k) =~= Seq::<usize>::empty(),
    decreases k,
{
    if k > 0 {
        lemma_fanout_none(nodes, sched, k - 1);
    }
}

/// A boundary map entry's slot is [`SENTINEL`] or below the live total.
proof fn lemma_ext_entry_slot<C: Component, M, U>(
    nodes: Seq<Option<GraphNode<C, M>>>,
    nexuses: Seq<Option<Nexus<U>>>,
    k: int,
    idx: usize,
    input: bool,
)
    requires
        nexuses.len() <= usize::MAX,
    ensures
        ext_entry(nodes, nexuses, k, idx, input).0 == SENTINEL || (ext_entry(
            nodes,
            nexuses,
            k,
            idx,
            input,
        ).0 as int) < live_count(nexuses, nexuses.len() as int),
    decreases k,
{
    if k > 0 {
        if nodes[k - 1] is Some && ext_index_of(nodes[k - 1]->Some_0, input) == Some(idx) {
            match boundary_nexus(nodes[k - 1]->Some_0, input) {
                Some(nx) => lemma_slot_in_range(nexuses, nx.0.0 as int),
                None => (),
            }
        } else {
            lemma_ext_entry_slot(nodes, nexuses, k - 1, idx, input);
        }
    }
}

/// Two node tables with equal liveness, components, metadata and port
/// assignments.
pub open spec fn nodes_equiv<C: Component, M>(
    a: Seq<Option<GraphNode<C, M>>>,
    b: Seq<Option<GraphNode<C, M>>>,
) -> bool {
    &&& a.len() == b.len()
    &&& forall|i: int| 0 <= i < a.len() ==> ((#[trigger] a[i]) is Some <==> b[i] is Some)
    &&& forall|i: int|
        0 <= i < a.len() && (#[trigger] a[i]) is Some ==> {
            let n = a[i]->Some_0;
            let n2 = b[i]->Some_0;
            &&& n2.component == n.component
            &&& n2.meta == n.meta
            &&& n2.inputs@ == n.inputs@
            &&& n2.outputs@ == n.outputs@
        }
}

proof fn lemma_sched_filter_equiv<C: Component, M>(
    a: Seq<Option<GraphNode<C, M>>>,
    b: Seq<Option<GraphNode<C, M>>>,
    k: int,
    sources: bool,
)
    requires
        nodes_equiv(a, b),
        k <= a.len(),
    ensures
        sched_filter(a, k, sources) == sched_filter(b, k, sources),
    decreases k,
{
    if k > 0 {
        lemma_sched_filter_equiv(a, b, k - 1, sources);
    }
}

proof fn lemma_ext_len_equiv<C: Component, M>(
    a: Seq<Option<GraphNode<C, M>>>,
    b: Seq<Option<GraphNode<C, M>>>,
    k: int,
    input: bool,
)
    requires
        nodes_equiv(a, b),
        k <= a.len(),
    ensures
        ext_len(a, k, input) == ext_len(b, k, input),
    decreases k,
{
    if k > 0 {
        lemma_ext_len_equiv(a, b, k - 1, input);
    }
}

proof fn lemma_ext_entry_equiv<C: Component, M, U>(
    a: Seq<Option<GraphNode<C, M>>>,
    b: Seq<Option<GraphNode<C, M>>>,
    nexuses: Seq<Option<Nexus<U>>>,
    k: int,
    idx: usize,
    input: bool,
)
    requires
        nodes_equiv(a, b),
        k <= a.len(),
    ensures
        ext_entry(a, nexuses, k, idx, input) == ext_entry(b, nexuses, k, idx, input),
        ext_source_nexus(a, k, idx) == ext_source_nexus(b, k, idx),
    decreases k,
{
    if k > 0 {
        lemma_ext_entry_equiv(a, b, nexuses, k - 1, idx, input);
    }
}

proof fn lemma_compiled_nodes_equiv<C: Component, M, U>(
    a: Seq<Option<GraphNode<C, M>>>,
    b: Seq<Option<GraphNode<C, M>>>,
    nexuses: Seq<Option<Nexus<U>>>,
    sched: Seq<usize>,
    k: int,
)
    requires
        nodes_equiv(a, b),
        forall|t: int| 0 <= t < sched.len() ==> (#[trigger] sched[t]) < a.len(),
        k <= sched.len(),
    ensures
        compiled_nodes(a, nexuses, sched, k) == compiled_nodes(b, nexuses, sched, k),
        mem_cursor(a, nexuses, sched, k) == mem_cursor(b, nexuses, sched, k),
    decreases k,
{
    if k > 0 {
        lemma_compiled_nodes_equiv(a, b, nexuses, sched, k - 1);
        if a[sched[k - 1] as int] is Some {
            let n = a[sched[k - 1] as int]->Some_0;
            let n2 = b[sched[k - 1] as int]->Some_0;
            assert(node_input_slots(nexuses, n2) =~= node_input_slots(nexuses, n));
            assert(node_output_slots(nexuses, n2) =~= node_output_slots(nexuses, n));
        }
    }
}

proof fn lemma_fanout_equiv<C: Component, M>(
    a: Seq<Option<GraphNode<C, M>>>,
    b: Seq<Option<GraphNode<C, M>>>,
    sched: Seq<usize>,
    nxo: Option<NexusHandle>,
    k: int,
)
    requires
        nodes_equiv(a, b),
        forall|t: int| 0 <= t < sched.len() ==> (#[trigger] sched[t]) < a.len(),
        k <= sched.len(),
    ensures
        fanout(a, sched, nxo, k) == fanout(b, sched, nxo, k),
    decreases k,
{
    if k > 0 {
        lemma_fanout_equiv(a, b, sched, nxo, k - 1);
        match nxo {
            Some(nx) => {
                if a[sched[k - 1] as int] is Some {
                    let n = a[sched[k - 1] as int]->Some_0;
                    let n2 = b[sched[k - 1] as int]->Some_0;
                    assert(node_uses(n2, nx) == node_uses(n, nx));
                }
            },
            None => {},
        }
    }
}

/// Compilation depends only on the node table's liveness, components,
/// metadata and port assignments: equivalent tables compile to the same
/// program.
pub proof fn lemma_compile_equiv<C: Component, M, U>(
    a: Seq<Option<GraphNode<C, M>>>,
    b: Seq<Option<GraphNode<C, M>>>,
    nexuses: Seq<Option<Nexus<U>>>,
)
    requires
        nodes_equiv(a, b),
        a.len() <= usize::MAX,
    ensures
        spec_compile(a, nexuses) == spec_compile(b, nexuses),
{
    lemma_sched_filter_equiv(a, b, a.len() as int, true);
    lemma_sched_filter_equiv(a, b, a.len() as int, false);
    assert(schedule(a) == schedule(b));
    lemma_schedule_props(a);
    lemma_ext_len_equiv(a, b, a.len() as int, true);
    lemma_ext_len_equiv(a, b, a.len() as int, false);
    lemma_compiled_nodes_equiv(a, b, nexuses, schedule(a), schedule(a).len() as int);
    let pa = spec_compile(a, nexuses);
    let pb = spec_compile(b, nexuses);
    assert(pa.input_map.len() == pb.input_map.len());
    assert forall|q: int| 0 <= q < pa.input_map.len() implies #[trigger] pa.input_map[q]
        == pb.input_map[q] by {
        lemma_ext_entry_equiv(a, b, nexuses, a.len() as int, q as usize, true);
    }
    assert forall|q: int| 0 <= q < pa.output_map.len() implies #[trigger] pa.output_map[q]
        == pb.output_map[q] by {
        lemma_ext_entry_equiv(a, b, nexuses, a.len() as int, q as usize, false);
    }
    assert forall|q: int|
        0 <= q < pa.input_nodes_map.len() implies #[trigger] pa.input_nodes_map[q]
        == pb.input_nodes_map[q] by {
        lemma_ext_entry_equiv(a, b, nexuses, a.len() as int, q as usize, true);
        lemma_fanout_equiv(
            a,
            b,
            schedule(a),
            ext_source_nexus(a, a.len() as int, q as usize),
            schedule(a).len() as int,
        );
    }
    assert(pa.input_map =~= pb.input_map);
    assert(pa.output_map =~= pb.output_map);
    assert(pa.input_nodes_map =~= pb.input_nodes_map);
    assert(pa.nexus_map =~= pb.nexus_map);
}

/// Cursor yielding `(component, handle, meta)` of live nodes in handle order.
pub struct GraphIter<'a, C, M> {
    iter: Iter<'a, GraphNode<C, M>>,
}

impl<'a, C, M> GraphIter<'a, C, M> {
    pub closed spec fn spec_nodes(&self) -> Seq<Option<GraphNode<C, M>>> {
        self.iter.spec_arena()
    }

    pub closed spec fn spec_index(&self) -> usize {
        self.iter.spec_index()
    }

    pub fn next(&mut self) -> (r: Option<(&'a C, GraphNodeHandle, &'a M)>)
        requires
            old(self).spec_index() <= old(self).spec_nodes().len(),
        ensures
            final(self).spec_nodes() == old(self).spec_nodes(),
            match r {
                Some((c, h, m)) => {
                    &&& old(self).spec_index() <= h.0.0 < old(self).spec_nodes().len()
                    &&& old(self).spec_nodes()[h.0.0 as int] matches Some(n) && n.component == *c
                        && n.meta == *m
                    &&& forall|j: int|
                        old(self).spec_index() <= j < h.0.0 ==> old(self).spec_nodes()[j] is None
                    &&& final(self).spec_index() == h.0.0 + 1
                },
                None => {
                    &&& forall|j: int|
                        old(self).spec_index() <= j < old(self).spec_nodes().len() ==> old(self).spec_nodes()[j] is None
                    &&& final(self).spec_index() == old(self).spec_nodes().len()
                },
            },
    {
        match self.iter.next() {
            Some((h, n)) => Some((&n.component, GraphNodeHandle(h), &n.meta)),
            None => None,
        }
    }
}

} // verus!
