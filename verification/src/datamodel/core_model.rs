//! A graph as two plain document collections: nodes and bonds with numeric
//! ids and a single label each, appended as they come.

use vstd::prelude::*;

verus! {

/// Node (vertex) document collection element.
pub struct Node {
    pub id: u32,
    pub label: String,
}

/// Bond (relation) document collection element.
pub struct Bond {
    pub id: u32,
    pub label: String,
}

/// The value of a node or bond document: its id and its label.
pub struct DocView {
    pub id: u32,
    pub label: Seq<char>,
}

impl View for Node {
    type V = DocView;

    open spec fn view(&self) -> DocView {
        DocView { id: self.id, label: self.label@ }
    }
}

impl View for Bond {
    type V = DocView;

    open spec fn view(&self) -> DocView {
        DocView { id: self.id, label: self.label@ }
    }
}

/// The value of a graph: its name and its two collections in insertion order.
pub struct DocGraphView {
    pub name: Seq<char>,
    pub nodes: Seq<DocView>,
    pub bonds: Seq<DocView>,
}

/// Main graph model.
pub struct Graph {
    name: String,
    nodes_collection: Vec<Node>,
    bonds_collection: Vec<Bond>,
}

impl View for Graph {
    type V = DocGraphView;

    closed spec fn view(&self) -> DocGraphView {
        DocGraphView {
            name: self.name@,
            nodes: self.nodes_collection@.map_values(|n: Node| n@),
            bonds: self.bonds_collection@.map_values(|b: Bond| b@),
        }
    }
}

impl Graph {
    /// Creates a new empty graph named `name`.
    pub fn new_graph(name: &str) -> (g: Box<Self>)
        ensures
            g@.name == name@,
            g@.nodes.len() == 0,
            g@.bonds.len() == 0,
    {
        Box::new(Graph { name: name.to_owned(), nodes_collection: Vec::new(), bonds_collection: Vec::new() })
    }

    /// Creates a node, appending it to the nodes collection.
    pub fn create_node(&mut self, node: Node) -> (r: Result<(), ()>)
        ensures
            r is Ok,
            final(self)@ == (DocGraphView { nodes: old(self)@.nodes.push(node@), ..old(self)@ }),
    {
        let ghost v = node@;
        self.nodes_collection.push(node);
        proof {
            assert(self@.nodes =~= old(self)@.nodes.push(v));
        }
        Ok(())
    }

    /// Creates a bond, appending it to the bonds collection.
    pub fn create_bond(&mut self, bond: Bond) -> (r: Result<(), ()>)
        ensures
            r is Ok,
            final(self)@ == (DocGraphView { bonds: old(self)@.bonds.push(bond@), ..old(self)@ }),
    {
        let ghost v = bond@;
        self.bonds_collection.push(bond);
        proof {
            assert(self@.bonds =~= old(self)@.bonds.push(v));
        }
        Ok(())
    }

    /// Drops the whole graph.
    pub fn delete_graph(self) {
    }

    /// The graph's name.
    pub fn name(&self) -> (s: &str)
        ensures
            s@ == self@.name,
    {
        self.name.as_str()
    }

    /// The number of nodes.
    pub fn nodes_number(&self) -> (n: usize)
        ensures
            n == self@.nodes.len(),
    {
        self.nodes_collection.len()
    }

    /// The number of bonds.
    pub fn bonds_number(&self) -> (n: usize)
        ensures
            n == self@.bonds.len(),
    {
        self.bonds_collection.len()
    }
}

} // verus!
