//! Builds a project in memory, without going through the text parser.

use vstd::prelude::*;
use crate::ast::{Connection, NamedDiagram, Node, Project, ShapeKind};
use crate::text::{owned, str_eq};
use crate::textmap::TextMap;

verus! {

/// The identifiers of a list of nodes, in order.
pub open spec fn node_ids(nodes: Seq<Node>) -> Seq<Seq<char>> {
    nodes.map_values(|n: Node| n.id@)
}

/// A node as the builder makes it: labelled with its identifier, a box, with
/// no class, properties or attributes.
pub open spec fn is_plain_node(n: Node, id: Seq<char>) -> bool {
    &&& n.id@ == id
    &&& n.label matches Some(l) && l@ == id
    &&& n.class is None
    &&& n.kind == ShapeKind::Box
    &&& n.properties@ == Map::<Seq<char>, crate::ast::Expression>::empty()
    &&& n.attributes@ == Map::<Seq<char>, String>::empty()
}

/// The root nodes of `nodes` after making sure one has identifier `id`: they
/// stay as they are if one already has it, and otherwise a plain node for
/// `id` is appended.
pub open spec fn ensures_node(before: Seq<Node>, after: Seq<Node>, id: Seq<char>) -> bool {
    if node_ids(before).contains(id) {
        after == before
    } else {
        after.len() == before.len() + 1 && after.take(before.len() as int) == before
            && is_plain_node(after.last(), id)
    }
}

/// After making sure a node has identifier `id`, one has it.
pub proof fn lemma_ensured_node_present(before: Seq<Node>, after: Seq<Node>, id: Seq<char>)
    requires
        ensures_node(before, after, id),
    ensures
        node_ids(after).contains(id),
{
    if !node_ids(before).contains(id) {
        assert(node_ids(after)[after.len() - 1] == id);
    }
}

/// Making sure twice that a node has identifier `id` changes nothing the
/// second time: adding the same node again is idempotent.
pub proof fn lemma_ensure_node_idempotent(before: Seq<Node>, mid: Seq<Node>, after: Seq<Node>, id: Seq<char>)
    requires
        ensures_node(before, mid, id),
        ensures_node(mid, after, id),
    ensures
        after == mid,
{
    lemma_ensured_node_present(before, mid, id);
}

/// An edge leaves both of its endpoints among the root nodes, and keeps the
/// nodes that were there, in order.
pub proof fn lemma_edge_endpoints_present(before: Seq<Node>, mid: Seq<Node>, after: Seq<Node>, from: Seq<char>, to: Seq<char>)
    requires
        ensures_node(before, mid, from),
        ensures_node(mid, after, to),
    ensures
        node_ids(after).contains(from),
        node_ids(after).contains(to),
        after.len() >= before.len(),
        after.take(before.len() as int) == before,
{
    lemma_ensured_node_present(before, mid, from);
    lemma_ensured_node_present(mid, after, to);
    if node_ids(mid).contains(to) {
    } else {
        let k = choose|k: int| 0 <= k < node_ids(mid).len() && node_ids(mid)[k] == from;
        assert(after[k] == mid[k]);
        assert(node_ids(after)[k] == from);
    }
    assert(after.take(before.len() as int) =~= before) by {
        if !node_ids(before).contains(from) {
            assert(mid.take(before.len() as int) == before);
        }
        if !node_ids(mid).contains(to) {
            assert(after.take(mid.len() as int) == mid);
        }
    }
}

/// A plain node for `id`.
fn plain_node(id: &str) -> (n: Node)
    ensures
        is_plain_node(n, id@),
{
    Node {
        id: owned(id),
        class: None,
        label: Some(owned(id)),
        kind: ShapeKind::Box,
        properties: TextMap::new(),
        attributes: TextMap::new(),
    }
}

/// Appends a plain node for `id` unless a node already has that identifier.
fn ensure_node(nodes: &mut Vec<Node>, id: &str)
    ensures
        ensures_node(old(nodes)@, final(nodes)@, id@),
{
    let mut i: usize = 0;
    while i < nodes.len()
        invariant
            i <= nodes@.len(),
            forall|j: int| 0 <= j < i ==> nodes@[j].id@ != id@,
        decreases nodes@.len() - i,
    {
        if str_eq(nodes[i].id.as_str(), id) {
            proof {
                assert(node_ids(nodes@)[i as int] == id@);
            }
            return;
        }
        i = i + 1;
    }
    proof {
        assert(!node_ids(nodes@).contains(id@)) by {
            if node_ids(nodes@).contains(id@) {
                let j = choose|j: int| 0 <= j < node_ids(nodes@).len() && node_ids(nodes@)[j] == id@;
                assert(nodes@[j].id@ == id@);
            }
        }
    }
    let ghost before = nodes@;
    nodes.push(plain_node(id));
    proof {
        assert(nodes@.take(before.len() as int) == before);
    }
}

/// Builds a [`Project`] diagram by diagram, node by node and edge by edge.
pub struct ProjectBuilder {
    project: Project,
}

impl ProjectBuilder {
    /// The project built so far.
    pub closed spec fn project(self) -> Project {
        self.project
    }

    /// A builder holding an empty project.
    pub fn new() -> (b: Self)
        ensures
            b.project().diagrams@.len() == 0,
            b.project().packets@.len() == 0,
            b.project().states@.len() == 0,
            b.project().xys@.len() == 0,
            b.project().sqltables@.len() == 0,
            b.project().variables@ == Map::<Seq<char>, crate::ast::Expression>::empty(),
            b.project().classes@ == Map::<Seq<char>, TextMap<String>>::empty(),
    {
        ProjectBuilder { project: Project::empty() }
    }

    /// Adds a new diagram to the project and returns its index.
    pub fn add_diagram(&mut self, name: &str) -> (idx: usize)
        requires
            old(self).project().diagrams@.len() < usize::MAX,
        ensures
            idx == old(self).project().diagrams@.len(),
            final(self).project().diagrams@.len() == idx + 1,
            final(self).project().diagrams@.take(idx as int) == old(self).project().diagrams@,
            final(self).project().diagrams@[idx as int].name@ == name@,
            final(self).project().diagrams@[idx as int].root.nodes@.len() == 0,
            final(self).project().diagrams@[idx as int].root.layers@.len() == 0,
            final(self).project().diagrams@[idx as int].connections@.len() == 0,
            final(self).project().diagrams@[idx as int].scenario is None,
            final(self).project().diagrams@[idx as int].root.id@ == seq!['r', 'o', 'o', 't'],
            same_but_diagrams(old(self).project(), final(self).project()),
    {
        let diagram = NamedDiagram::new(owned(name));
        let ghost before = self.project.diagrams@;
        self.project.diagrams.push(diagram);
        proof {
            assert(self.project.diagrams@.take(before.len() as int) == before);
        }
        self.project.diagrams.len() - 1
    }

    /// Adds a node to the specified diagram index, unless a root node of that
    /// diagram already has the identifier; an index past the last diagram
    /// changes nothing. Returns the node identifier.
    pub fn add_node(&mut self, diagram_idx: usize, id: &str) -> (r: String)
        ensures
            r@ == id@,
            same_but_diagrams(old(self).project(), final(self).project()),
            final(self).project().diagrams@.len() == old(self).project().diagrams@.len(),
            forall|j: int| 0 <= j < old(self).project().diagrams@.len() && j != diagram_idx
                ==> #[trigger] final(self).project().diagrams@[j] == old(self).project().diagrams@[j],
            diagram_idx < old(self).project().diagrams@.len() ==> {
                let before = old(self).project().diagrams@[diagram_idx as int];
                let after = final(self).project().diagrams@[diagram_idx as int];
                &&& ensures_node(before.root.nodes@, after.root.nodes@, id@)
                &&& after.root.id == before.root.id
                &&& after.root.layers == before.root.layers
                &&& after.name == before.name
                &&& after.connections == before.connections
                &&& after.scenario == before.scenario
            },
    {
        if diagram_idx < self.project.diagrams.len() {
            let diagram = &mut self.project.diagrams[diagram_idx];
            ensure_node(&mut diagram.root.nodes, id);
        }
        owned(id)
    }

    /// Adds a directed edge between two nodes in the specified diagram.
    /// Creates the nodes if they don't exist yet; an index past the last
    /// diagram changes nothing.
    pub fn add_edge(&mut self, diagram_idx: usize, from: &str, to: &str, label: Option<&str>)
        ensures
            same_but_diagrams(old(self).project(), final(self).project()),
            final(self).project().diagrams@.len() == old(self).project().diagrams@.len(),
            forall|j: int| 0 <= j < old(self).project().diagrams@.len() && j != diagram_idx
                ==> #[trigger] final(self).project().diagrams@[j] == old(self).project().diagrams@[j],
            diagram_idx < old(self).project().diagrams@.len() ==> {
                let before = old(self).project().diagrams@[diagram_idx as int];
                let after = final(self).project().diagrams@[diagram_idx as int];
                &&& exists|mid: Seq<Node>| ensures_node(before.root.nodes@, mid, from@)
                    && ensures_node(mid, after.root.nodes@, to@)
                &&& after.root.id == before.root.id
                &&& after.root.layers == before.root.layers
                &&& after.name == before.name
                &&& after.scenario == before.scenario
                &&& after.connections@.len() == before.connections@.len() + 1
                &&& after.connections@.take(before.connections@.len() as int) == before.connections@
                &&& is_plain_edge(after.connections@.last(), from@, to@, label)
            },
    {
        let ghost mut mid: Seq<Node> = Seq::empty();
        if diagram_idx < self.project.diagrams.len() {
            let diagram = &mut self.project.diagrams[diagram_idx];
            let ghost before = diagram.root.nodes@;
            ensure_node(&mut diagram.root.nodes, from);
            proof {
                mid = diagram.root.nodes@;
            }
            ensure_node(&mut diagram.root.nodes, to);
            let label_text = match label {
                Some(s) => Some(owned(s)),
                None => None,
            };
            let arrow = owned("->");
            let ghost conns = diagram.connections@;
            diagram.connections.push(
                Connection { from: owned(from), to: owned(to), arrow, label: label_text, attributes: TextMap::new() },
            );
            proof {
                reveal_strlit("->");
                assert("->"@ =~= seq!['-', '>']);
                assert(diagram.connections@.take(conns.len() as int) == conns);
                assert(ensures_node(before, mid, from@));
            }
        }
        proof {
            if diagram_idx < self.project.diagrams@.len() {
                let after = self.project().diagrams@[diagram_idx as int];
                assert(ensures_node(mid, after.root.nodes@, to@));
            }
        }
    }

    /// Consumes the builder and returns the completed Project.
    pub fn build(self) -> (p: Project)
        ensures
            p == self.project(),
    {
        self.project
    }
}

/// The edge the builder adds: `from -> to`, with the label if one was given,
/// and no attributes.
pub open spec fn is_plain_edge(c: Connection, from: Seq<char>, to: Seq<char>, label: Option<&str>) -> bool {
    &&& c.from@ == from
    &&& c.to@ == to
    &&& c.arrow@ == seq!['-', '>']
    &&& match label {
        Some(l) => c.label matches Some(t) && t@ == l@,
        None => c.label is None,
    }
    &&& c.attributes@ == Map::<Seq<char>, String>::empty()
}

/// Everything but the diagrams is the same in both projects.
pub open spec fn same_but_diagrams(a: Project, b: Project) -> bool {
    &&& a.packets == b.packets
    &&& a.states == b.states
    &&& a.xys == b.xys
    &&& a.sqltables == b.sqltables
    &&& a.variables == b.variables
    &&& a.classes == b.classes
}

impl Default for ProjectBuilder {
    fn default() -> (b: Self)
        ensures
            b.project().diagrams@.len() == 0,
    {
        Self::new()
    }
}

} // verus!
