//! Nodes of a schedule and directed graphs over them, with what it means for
//! one node to be reached from another.

use vstd::prelude::*;

verus! {

/// Identifier of a node of a schedule: a system, or a set of systems. The
/// number is the node's place in the table of its kind.
#[derive(Clone, Copy, Debug, PartialEq, Eq, Structural, Hash, PartialOrd, Ord)]
pub enum NodeId {
    System(usize),
    SystemSet(usize),
}

impl NodeId {
    /// Whether the node is a system.
    pub fn is_system(&self) -> (r: bool)
        ensures
            r == (*self is System),
    {
        match self {
            NodeId::System(_) => true,
            NodeId::SystemSet(_) => false,
        }
    }

    /// Whether the node is a set of systems.
    pub fn is_set(&self) -> (r: bool)
        ensures
            r == (*self is SystemSet),
    {
        match self {
            NodeId::System(_) => false,
            NodeId::SystemSet(_) => true,
        }
    }

    /// The node's place in the table of its kind.
    pub open spec fn spec_index(&self) -> usize {
        match *self {
            NodeId::System(i) => i,
            NodeId::SystemSet(i) => i,
        }
    }

    /// The node's place in the table of its kind.
    #[verifier::when_used_as_spec(spec_index)]
    pub fn index(&self) -> (i: usize)
        ensures
            i == self.spec_index(),
    {
        match self {
            NodeId::System(i) => *i,
            NodeId::SystemSet(i) => *i,
        }
    }

    /// The order of nodes: systems before sets, and within a kind by number.
    pub open spec fn precedes(self, other: NodeId) -> bool {
        match (self, other) {
            (NodeId::System(a), NodeId::System(b)) => a < b,
            (NodeId::System(_), NodeId::SystemSet(_)) => true,
            (NodeId::SystemSet(_), NodeId::System(_)) => false,
            (NodeId::SystemSet(a), NodeId::SystemSet(b)) => a < b,
        }
    }

    /// Whether this node comes before `other` in the order of nodes.
    pub fn is_before(&self, other: &NodeId) -> (r: bool)
        ensures
            r == self.precedes(*other),
    {
        match (self, other) {
            (NodeId::System(a), NodeId::System(b)) => *a < *b,
            (NodeId::System(_), NodeId::SystemSet(_)) => true,
            (NodeId::SystemSet(_), NodeId::System(_)) => false,
            (NodeId::SystemSet(a), NodeId::SystemSet(b)) => *a < *b,
        }
    }
}

/// The order of nodes is total: of two different nodes one comes first, and
/// it is strict and transitive.
pub proof fn lemma_node_order_total(a: NodeId, b: NodeId, c: NodeId)
    ensures
        !a.precedes(a),
        a != b ==> (a.precedes(b) != b.precedes(a)),
        a == b ==> !a.precedes(b),
        a.precedes(b) && b.precedes(c) ==> a.precedes(c),
{
}

/// The way an edge is followed: from its source to its target, or back.
#[derive(Clone, Copy, Debug, PartialEq, Eq, Structural)]
pub enum Direction {
    Outgoing,
    Incoming,
}

/// The end of `edge` at which a step in direction `dir` starts.
pub open spec fn origin(edge: (NodeId, NodeId), dir: Direction) -> NodeId {
    match dir {
        Direction::Outgoing => edge.0,
        Direction::Incoming => edge.1,
    }
}

/// The end of `edge` at which a step in direction `dir` arrives.
pub open spec fn arrival(edge: (NodeId, NodeId), dir: Direction) -> NodeId {
    match dir {
        Direction::Outgoing => edge.1,
        Direction::Incoming => edge.0,
    }
}

/// The nodes one step from `node` in direction `dir`, in the order of the
/// edges that lead to them.
pub open spec fn neighbors(edges: Seq<(NodeId, NodeId)>, node: NodeId, dir: Direction) -> Seq<
    NodeId,
>
    decreases edges.len(),
{
    if edges.len() == 0 {
        Seq::empty()
    } else if origin(edges.last(), dir) == node {
        neighbors(edges.drop_last(), node, dir).push(arrival(edges.last(), dir))
    } else {
        neighbors(edges.drop_last(), node, dir)
    }
}

/// Whether one step in direction `dir` leads from `a` to `b`.
pub open spec fn linked(edges: Seq<(NodeId, NodeId)>, a: NodeId, b: NodeId, dir: Direction) -> bool {
    match dir {
        Direction::Outgoing => edges.contains((a, b)),
        Direction::Incoming => edges.contains((b, a)),
    }
}

/// Whether `walk` is a sequence of nodes, at least one, each one step in
/// direction `dir` from the one before.
pub open spec fn is_walk(edges: Seq<(NodeId, NodeId)>, walk: Seq<NodeId>, dir: Direction) -> bool {
    &&& walk.len() >= 1
    &&& forall|i: int| 0 <= i < walk.len() - 1 ==> linked(edges, #[trigger] walk[i], walk[i + 1], dir)
}

/// Whether steps in direction `dir`, none or more, lead from `a` to `b`.
pub open spec fn connects(edges: Seq<(NodeId, NodeId)>, a: NodeId, b: NodeId, dir: Direction) -> bool {
    exists|walk: Seq<NodeId>| #[trigger]
        is_walk(edges, walk, dir) && walk.first() == a && walk.last() == b
}

/// Whether `b` can be reached from `a` along the edges.
pub open spec fn reaches(edges: Seq<(NodeId, NodeId)>, a: NodeId, b: NodeId) -> bool {
    connects(edges, a, b, Direction::Outgoing)
}

/// Whether `a` is `node` itself or stands above it: `a` is found from
/// `node` by going from member to containing set, none or more times.
pub open spec fn is_ancestor_or_self(edges: Seq<(NodeId, NodeId)>, a: NodeId, node: NodeId) -> bool {
    connects(edges, node, a, Direction::Incoming)
}

/// The neighbours of a node are the nodes one step away.
pub proof fn lemma_neighbors_linked(
    edges: Seq<(NodeId, NodeId)>,
    node: NodeId,
    dir: Direction,
    other: NodeId,
)
    ensures
        neighbors(edges, node, dir).contains(other) <==> linked(edges, node, other, dir),
    decreases edges.len(),
{
    if edges.len() == 0 {
    } else {
        let rest = edges.drop_last();
        let e = edges.last();
        lemma_neighbors_linked(rest, node, dir, other);
        let key = match dir {
            Direction::Outgoing => (node, other),
            Direction::Incoming => (other, node),
        };
        assert(edges =~= rest.push(e));
        if edges.contains(key) {
            let i = choose|i: int| 0 <= i < edges.len() && edges[i] == key;
            if i < rest.len() {
                assert(rest[i] == key);
                assert(rest.contains(key));
            }
        }
        if rest.contains(key) {
            let i = choose|i: int| 0 <= i < rest.len() && rest[i] == key;
            assert(edges[i] == key);
        }
        if origin(e, dir) == node {
            let n = neighbors(rest, node, dir);
            let m = n.push(arrival(e, dir));
            if m.contains(other) {
                let i = choose|i: int| 0 <= i < m.len() && m[i] == other;
                if i < n.len() {
                    assert(n[i] == other);
                } else {
                    assert(e == key);
                    assert(edges[edges.len() - 1] == key);
                }
            }
            if n.contains(other) {
                let i = choose|i: int| 0 <= i < n.len() && n[i] == other;
                assert(m[i] == other);
            }
            if e == key {
                assert(m[m.len() - 1] == other);
            }
        }
    }
}

/// A node is connected to itself.
pub proof fn lemma_connects_self(edges: Seq<(NodeId, NodeId)>, a: NodeId, dir: Direction)
    ensures
        connects(edges, a, a, dir),
{
    let walk = seq![a];
    assert(is_walk(edges, walk, dir));
}

/// A connection can be extended by one step.
pub proof fn lemma_connects_step(
    edges: Seq<(NodeId, NodeId)>,
    a: NodeId,
    b: NodeId,
    c: NodeId,
    dir: Direction,
)
    requires
        connects(edges, a, b, dir),
        linked(edges, b, c, dir),
    ensures
        connects(edges, a, c, dir),
{
    let walk = choose|walk: Seq<NodeId>| #[trigger]
        is_walk(edges, walk, dir) && walk.first() == a && walk.last() == b;
    let longer = walk.push(c);
    assert forall|i: int| 0 <= i < longer.len() - 1 implies linked(
        edges,
        #[trigger] longer[i],
        longer[i + 1],
        dir,
    ) by {
        if i < walk.len() - 1 {
            assert(longer[i] == walk[i]);
            assert(longer[i + 1] == walk[i + 1]);
        }
    }
    assert(is_walk(edges, longer, dir));
    assert(longer.first() == a && longer.last() == c);
}

/// Connections compose.
pub proof fn lemma_connects_transitive(
    edges: Seq<(NodeId, NodeId)>,
    a: NodeId,
    b: NodeId,
    c: NodeId,
    dir: Direction,
)
    requires
        connects(edges, a, b, dir),
        connects(edges, b, c, dir),
    ensures
        connects(edges, a, c, dir),
{
    let first = choose|walk: Seq<NodeId>| #[trigger]
        is_walk(edges, walk, dir) && walk.first() == a && walk.last() == b;
    let second = choose|walk: Seq<NodeId>| #[trigger]
        is_walk(edges, walk, dir) && walk.first() == b && walk.last() == c;
    let joined = first + second.skip(1);
    assert forall|i: int| 0 <= i < joined.len() - 1 implies linked(
        edges,
        #[trigger] joined[i],
        joined[i + 1],
        dir,
    ) by {
        if i < first.len() - 1 {
            assert(joined[i] == first[i]);
            assert(joined[i + 1] == first[i + 1]);
        } else if i == first.len() - 1 {
            assert(joined[i] == second[0]);
            assert(joined[i + 1] == second[1]);
        } else {
            let j = i - first.len() + 1;
            assert(joined[i] == second[j]);
            assert(joined[i + 1] == second[j + 1]);
        }
    }
    assert(is_walk(edges, joined, dir));
    assert(joined.first() == a);
    if second.len() == 1 {
        assert(joined =~= first);
    } else {
        assert(joined.last() == second.last());
    }
}

/// A connection in a graph is one in every graph that has all its edges.
pub proof fn lemma_connects_monotone(
    small: Seq<(NodeId, NodeId)>,
    large: Seq<(NodeId, NodeId)>,
    a: NodeId,
    b: NodeId,
    dir: Direction,
)
    requires
        forall|e: (NodeId, NodeId)| small.contains(e) ==> large.contains(e),
        connects(small, a, b, dir),
    ensures
        connects(large, a, b, dir),
{
    let walk = choose|walk: Seq<NodeId>| #[trigger]
        is_walk(small, walk, dir) && walk.first() == a && walk.last() == b;
    assert forall|i: int| 0 <= i < walk.len() - 1 implies linked(
        large,
        #[trigger] walk[i],
        walk[i + 1],
        dir,
    ) by {
        assert(linked(small, walk[i], walk[i + 1], dir));
    }
    assert(is_walk(large, walk, dir));
}

/// A directed graph: its edges, each from a source to a target, in the order
/// in which they were added. No edge stands twice.
pub struct DiGraph {
    edges: Vec<(NodeId, NodeId)>,
}

impl View for DiGraph {
    type V = Seq<(NodeId, NodeId)>;

    closed spec fn view(&self) -> Seq<(NodeId, NodeId)> {
        self.edges@
    }
}

impl DiGraph {
    #[verifier::type_invariant]
    spec fn has_distinct_edges(self) -> bool {
        self.edges@.no_duplicates()
    }

    /// A graph without edges.
    pub fn new() -> (g: DiGraph)
        ensures
            g@ == Seq::<(NodeId, NodeId)>::empty(),
    {
        DiGraph { edges: Vec::new() }
    }

    /// No edge stands twice in a graph.
    pub fn edges_are_distinct(&self)
        ensures
            self@.no_duplicates(),
    {
        proof {
            use_type_invariant(self);
        }
    }

    /// The number of edges.
    pub fn edge_count(&self) -> (n: usize)
        ensures
            n == self@.len(),
    {
        self.edges.len()
    }

    /// The edge at place `i`.
    pub fn edge(&self, i: usize) -> (e: (NodeId, NodeId))
        requires
            i < self@.len(),
        ensures
            e == self@[i as int],
    {
        self.edges[i]
    }

    /// Whether the graph has an edge from `a` to `b`.
    pub fn contains_edge(&self, a: NodeId, b: NodeId) -> (r: bool)
        ensures
            r == self@.contains((a, b)),
    {
        let mut i: usize = 0;
        while i < self.edges.len()
            invariant
                i <= self.edges.len(),
                forall|j: int| 0 <= j < i ==> self.edges@[j] != (a, b),
            decreases self.edges.len() - i,
        {
            let e = self.edges[i];
            if e.0 == a && e.1 == b {
                return true;
            }
            i += 1;
        }
        false
    }

    /// Adds the edge from `a` to `b` at the end, unless the graph has it.
    pub fn add_edge(&mut self, a: NodeId, b: NodeId)
        ensures
            final(self)@ == if old(self)@.contains((a, b)) {
                old(self)@
            } else {
                old(self)@.push((a, b))
            },
    {
        proof {
            use_type_invariant(&*self);
        }
        if !self.contains_edge(a, b) {
            let ghost before = self.edges@;
            let mut edges = self.all_edges();
            edges.push((a, b));
            proof {
                assert forall|i: int, j: int|
                    0 <= i < edges@.len() && 0 <= j < edges@.len() && i != j implies edges@[i]
                    != edges@[j] by {
                    if i < before.len() {
                        assert(before[i] == edges@[i]);
                    }
                    if j < before.len() {
                        assert(before[j] == edges@[j]);
                    }
                }
            }
            *self = DiGraph { edges };
        }
    }

    /// All edges, in the order in which they were added.
    pub fn all_edges(&self) -> (edges: Vec<(NodeId, NodeId)>)
        ensures
            edges@ == self@,
    {
        let mut out: Vec<(NodeId, NodeId)> = Vec::new();
        for i in 0..self.edges.len()
            invariant
                out@ == self.edges@.take(i as int),
        {
            out.push(self.edges[i]);
            assert(self.edges@.take(i + 1) =~= self.edges@.take(i as int).push(self.edges@[i as int]));
        }
        assert(self.edges@.take(self.edges@.len() as int) =~= self.edges@);
        out
    }

    /// A graph with the same edges.
    pub fn duplicate(&self) -> (g: DiGraph)
        ensures
            g@ == self@,
    {
        proof {
            use_type_invariant(self);
        }
        DiGraph { edges: self.all_edges() }
    }

    /// The nodes one step from `node` in direction `dir`: the targets of its
    /// edges, or the sources of the edges that lead to it.
    pub fn neighbors_directed(&self, node: NodeId, dir: Direction) -> (found: Vec<NodeId>)
        ensures
            found@ == neighbors(self@, node, dir),
    {
        let mut found: Vec<NodeId> = Vec::new();
        for i in 0..self.edges.len()
            invariant
                found@ == neighbors(self.edges@.take(i as int), node, dir),
        {
            let e = self.edges[i];
            assert(self.edges@.take(i + 1).drop_last() =~= self.edges@.take(i as int));
            let (from, to) = match dir {
                Direction::Outgoing => (e.0, e.1),
                Direction::Incoming => (e.1, e.0),
            };
            if from == node {
                found.push(to);
            }
        }
        assert(self.edges@.take(self.edges@.len() as int) =~= self.edges@);
        found
    }

    /// The graph without the edge at place `i`.
    pub fn without_edge(&self, i: usize) -> (g: DiGraph)
        requires
            i < self@.len(),
        ensures
            g@ == self@.remove(i as int),
    {
        let mut out: Vec<(NodeId, NodeId)> = Vec::new();
        for j in 0..self.edges.len()
            invariant
                i < self.edges.len(),
                out@ == if j <= i {
                    self.edges@.take(j as int)
                } else {
                    self.edges@.remove(i as int).take(j - 1)
                },
        {
            if j != i {
                out.push(self.edges[j]);
            }
            if j < i {
                assert(self.edges@.take(j + 1) =~= self.edges@.take(j as int).push(
                    self.edges@[j as int],
                ));
            } else if j == i {
                assert(self.edges@.remove(i as int).take(j as int) =~= self.edges@.take(j as int));
            } else {
                assert(self.edges@.remove(i as int).take(j as int) =~= self.edges@.remove(
                    i as int,
                ).take(j - 1).push(self.edges@[j as int]));
            }
        }
        assert(self.edges@.remove(i as int).take(self.edges@.len() - 1) =~= self.edges@.remove(
            i as int,
        ));
        proof {
            use_type_invariant(self);
            let all = self.edges@;
            assert forall|a: int, b: int|
                0 <= a < out@.len() && 0 <= b < out@.len() && a != b implies out@[a]
                != out@[b] by {
                let x = if a < i {
                    a
                } else {
                    a + 1
                };
                let y = if b < i {
                    b
                } else {
                    b + 1
                };
                assert(out@[a] == all[x] && out@[b] == all[y]);
            }
        }
        DiGraph { edges: out }
    }
}

} // verus!
