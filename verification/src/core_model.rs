//! The graph model: nodes, bonds, and the in-memory graph that stores them
//! with an index from node id to storage slot.

use vstd::prelude::*;
use std::collections::BTreeMap;
use std::collections::HashSet;

use crate::ids::{is_random_id, lemma_random_id_not_nil, new_random_id, nil_id, spec_nil_id};
use crate::text::{is_blank, is_blank_text, texts};

verus! {

broadcast use vstd::std_specs::btree::group_btree_axioms;

/// Request to create a graph under a name.
pub struct CreateGraphDTO {
    pub name: String,
}

/// A node as it is handed out to clients.
pub struct ReturnNodeDTO {
    pub id: u32,
    pub label: String,
    pub bonds: Option<Vec<ReturnBondDTO>>,
}

/// A bond as it is handed out to clients; ids are UUID values.
pub struct ReturnBondDTO {
    pub id: u128,
    pub label: String,
    pub src: u128,
    pub dst: u128,
}

/// A node (vertex): its id and its labels.
#[derive(Debug)]
pub struct Node {
    pub id: u128,
    pub labels: Vec<String>,
}

/// A bond (relation): its id, its label, and the ids of the nodes it leads
/// from (`src`) and to (`dst`).
#[derive(Debug)]
pub struct Bond {
    pub id: u128,
    pub label: String,
    pub src: u128,
    pub dst: u128,
}

/// Which bonds of a node a query follows.
#[derive(Debug, PartialEq, Eq, Structural)]
pub enum BondDirection {
    Outgoing,
    Ingoing,
    Both,
}

/// The mathematical value of a node.
pub struct NodeView {
    pub id: u128,
    pub labels: Seq<Seq<char>>,
}

/// The mathematical value of a bond.
pub struct BondView {
    pub id: u128,
    pub label: Seq<char>,
    pub src: u128,
    pub dst: u128,
}

impl View for Node {
    type V = NodeView;

    open spec fn view(&self) -> NodeView {
        NodeView { id: self.id, labels: texts(self.labels@) }
    }
}

impl View for Bond {
    type V = BondView;

    open spec fn view(&self) -> BondView {
        BondView { id: self.id, label: self.label@, src: self.src, dst: self.dst }
    }
}

pub open spec fn node_views(v: Seq<Node>) -> Seq<NodeView> {
    v.map_values(|n: Node| n@)
}

pub open spec fn bond_views(v: Seq<Bond>) -> Seq<BondView> {
    v.map_values(|b: Bond| b@)
}

/// The values of a list of node references.
pub open spec fn node_refs(v: Seq<&Node>) -> Seq<NodeView> {
    v.map_values(|n: &Node| n@)
}

/// The ids of a sequence of nodes.
pub open spec fn node_ids(v: Seq<NodeView>) -> Seq<u128> {
    v.map_values(|n: NodeView| n.id)
}

impl Node {
    /// A node with the given id and labels.
    pub fn new(id: u128, labels: Vec<String>) -> (n: Self)
        ensures
            n.id == id,
            n.labels == labels,
    {
        Node { id, labels }
    }
}

/// The mathematical value of an in-memory graph: its name, its nodes and
/// bonds in insertion order, and the two id indexes.
pub struct GraphView {
    pub name: Seq<char>,
    pub nodes: Seq<NodeView>,
    pub bonds: Seq<BondView>,
    pub node_index: Map<u128, usize>,
    pub bond_index: Map<u128, usize>,
}

impl GraphView {
    /// The graph with the given name and nothing in it.
    pub open spec fn empty(name: Seq<char>) -> GraphView {
        GraphView {
            name,
            nodes: Seq::empty(),
            bonds: Seq::empty(),
            node_index: Map::empty(),
            bond_index: Map::empty(),
        }
    }

    /// The node index is sound: every id it holds leads to a stored node
    /// with that id.  The index is finite and the node count fits a `usize`.
    pub open spec fn wf(self) -> bool {
        &&& self.node_index.dom().finite()
        &&& self.nodes.len() <= usize::MAX
        &&& forall|id: u128|
            #[trigger] self.node_index.contains_key(id) ==> {
                &&& self.node_index[id] < self.nodes.len()
                &&& self.nodes[self.node_index[id] as int].id == id
            }
    }

    /// The index is exact: sound, with one entry per stored node, each
    /// stored node indexed at its own slot under a non-nil id.  A graph
    /// built only with `add_node` keeps this.
    pub open spec fn exact(self) -> bool {
        &&& self.wf()
        &&& self.node_index.len() == self.nodes.len()
        &&& forall|i: int|
            0 <= i < self.nodes.len() ==> {
                &&& self.node_index.contains_key(#[trigger] self.nodes[i].id)
                &&& self.node_index[self.nodes[i].id] == i
                &&& self.nodes[i].id != spec_nil_id()
            }
    }

    /// Every stored node is indexed under its id, and every bond leads
    /// from a stored node to a stored node: what a graph built only with
    /// `add_node` and `add_bond` keeps.
    pub open spec fn closed(self) -> bool {
        &&& forall|i: int|
            0 <= i < self.nodes.len() ==> self.node_index.contains_key(#[trigger] self.nodes[i].id)
        &&& forall|i: int| 0 <= i < self.bonds.len() ==> self.ends_stored(#[trigger] self.bonds[i])
    }

    /// Both ends of `b` are stored nodes.
    pub open spec fn ends_stored(self, b: BondView) -> bool {
        self.has_node_id(b.src) && self.has_node_id(b.dst)
    }

    /// Some stored node has the id `id`.
    pub open spec fn has_node_id(self, id: u128) -> bool {
        exists|i: int| 0 <= i < self.nodes.len() && #[trigger] self.nodes[i].id == id
    }

    /// The graph with `n` appended and indexed at its slot.
    pub open spec fn with_indexed_node(self, n: NodeView) -> GraphView {
        GraphView {
            nodes: self.nodes.push(n),
            node_index: self.node_index.insert(n.id, self.nodes.len() as usize),
            ..self
        }
    }

    /// The graph with `n` appended and the index left as it is.
    pub open spec fn with_node(self, n: NodeView) -> GraphView {
        GraphView { nodes: self.nodes.push(n), ..self }
    }

    /// Appending a node keeps the index sound while the node count fits a
    /// `usize`.
    pub proof fn lemma_with_node_keeps_wf(self, n: NodeView)
        ensures
            self.wf() && self.nodes.len() < usize::MAX ==> self.with_node(n).wf(),
    {
        let g = self.with_node(n);
        if self.wf() {
            assert forall|id: u128| #[trigger] g.node_index.contains_key(id) implies {
                &&& g.node_index[id] < g.nodes.len()
                &&& g.nodes[g.node_index[id] as int].id == id
            } by {
                assert(g.nodes[self.node_index[id] as int] == self.nodes[self.node_index[
                    id
                ] as int]);
            }
        }
    }

    /// Appending a node and indexing it at its slot keeps the index sound.
    pub proof fn lemma_with_indexed_node_keeps_wf(self, n: NodeView)
        requires
            self.wf(),
            self.nodes.len() < usize::MAX,
        ensures
            self.with_indexed_node(n).wf(),
    {
        let g = self.with_indexed_node(n);
        assert forall|id: u128| #[trigger] g.node_index.contains_key(id) implies {
            &&& g.node_index[id] < g.nodes.len()
            &&& g.nodes[g.node_index[id] as int].id == id
        } by {
            if id != n.id {
                assert(g.nodes[self.node_index[id] as int] == self.nodes[self.node_index[id] as int]);
            }
        }
    }

    /// Appending a node under a fresh, non-nil id and indexing it at its
    /// slot keeps the index exact.
    pub proof fn lemma_with_indexed_node_keeps_exact(self, n: NodeView)
        requires
            self.exact(),
            self.nodes.len() < usize::MAX,
            !self.node_index.contains_key(n.id),
            n.id != spec_nil_id(),
        ensures
            self.with_indexed_node(n).exact(),
    {
        let g = self.with_indexed_node(n);
        self.lemma_with_indexed_node_keeps_wf(n);
        assert(g.node_index.dom() =~= self.node_index.dom().insert(n.id));
        assert forall|i: int| 0 <= i < g.nodes.len() implies {
            &&& g.node_index.contains_key(#[trigger] g.nodes[i].id)
            &&& g.node_index[g.nodes[i].id] == i
            &&& g.nodes[i].id != spec_nil_id()
        } by {
            if i < self.nodes.len() {
                assert(g.nodes[i] == self.nodes[i]);
                assert(self.node_index.contains_key(self.nodes[i].id));
            }
        }
    }

    /// The graph with `b` appended.
    pub open spec fn with_bond(self, b: BondView) -> GraphView {
        GraphView { bonds: self.bonds.push(b), ..self }
    }
}

/// Labels that `add_node` refuses: none at all, or a blank first label.
pub open spec fn labels_rejected(labels: Seq<Seq<char>>) -> bool {
    labels.len() == 0 || is_blank_text(labels[0])
}

/// The reasons for which `add_bond` refuses `b` on graph `g`: a nil
/// endpoint, a blank label, or an endpoint that no stored node carries.
pub open spec fn bond_rejected(g: GraphView, b: BondView) -> bool {
    ||| b.src == spec_nil_id()
    ||| b.dst == spec_nil_id()
    ||| is_blank_text(b.label)
    ||| !g.has_node_id(b.src)
    ||| !g.has_node_id(b.dst)
}


/// A bond's label passes the bond-type filter: the filter is empty, or it
/// lists the label.
pub open spec fn bond_type_selected(label: Seq<char>, types: Seq<Seq<char>>) -> bool {
    types.len() == 0 || types.contains(label)
}

/// Bond `b` is followed from node `node_id`: it leaves the node (when
/// `outgoing`) or enters it (otherwise), and its label passes the filter.
pub open spec fn follows(b: BondView, node_id: u128, types: Seq<Seq<char>>, outgoing: bool) -> bool {
    &&& if outgoing { b.src == node_id } else { b.dst == node_id }
    &&& bond_type_selected(b.label, types)
}

/// The far end of a followed bond.
pub open spec fn far_end(b: BondView, outgoing: bool) -> u128 {
    if outgoing { b.dst } else { b.src }
}

/// Some label of `labels` is listed in `filter`.
pub open spec fn labels_meet(labels: Seq<Seq<char>>, filter: Seq<Seq<char>>) -> bool {
    exists|j: int| 0 <= j < labels.len() && filter.contains(#[trigger] labels[j])
}

/// What a reached node contributes to a neighbourhood: itself, once, when
/// the label filter is empty or lists one of its labels; else nothing.
pub open spec fn node_hits(n: NodeView, filter: Seq<Seq<char>>) -> Seq<NodeView> {
    if filter.len() == 0 || labels_meet(n.labels, filter) {
        seq![n]
    } else {
        Seq::empty()
    }
}

impl GraphView {
    /// The nodes reached from `node_id` over the bonds of `bonds` in one
    /// direction, in bond order, each as `node_hits` gives it.
    pub open spec fn reached(
        self,
        node_id: u128,
        types: Seq<Seq<char>>,
        filter: Seq<Seq<char>>,
        outgoing: bool,
        bonds: Seq<BondView>,
    ) -> Seq<NodeView>
        decreases bonds.len(),
    {
        if bonds.len() == 0 {
            Seq::empty()
        } else {
            let prev = self.reached(node_id, types, filter, outgoing, bonds.drop_last());
            let b = bonds.last();
            if follows(b, node_id, types, outgoing) {
                prev + node_hits(self.nodes[self.node_index[far_end(b, outgoing)] as int], filter)
            } else {
                prev
            }
        }
    }

    /// Every bond followed from `node_id` in the directions that `dir`
    /// takes leads to an indexed node.
    pub open spec fn far_ends_indexed(
        self,
        node_id: u128,
        types: Seq<Seq<char>>,
        dir: BondDirection,
    ) -> bool {
        forall|i: int|
            0 <= i < self.bonds.len() ==> {
                &&& (!(dir is Ingoing) && follows(#[trigger] self.bonds[i], node_id, types, true))
                    ==> self.node_index.contains_key(self.bonds[i].dst)
                &&& (!(dir is Outgoing) && follows(self.bonds[i], node_id, types, false))
                    ==> self.node_index.contains_key(self.bonds[i].src)
            }
    }

    /// The answer of `get_connected_nodes`: the node itself, then the
    /// nodes reached over its outgoing bonds (unless `dir` is `Ingoing`),
    /// then those reached over its incoming bonds (unless `dir` is
    /// `Outgoing`).
    pub open spec fn connected(
        self,
        node_id: u128,
        types: Seq<Seq<char>>,
        filter: Seq<Seq<char>>,
        dir: BondDirection,
    ) -> Seq<NodeView> {
        let out = if dir is Ingoing {
            Seq::empty()
        } else {
            self.reached(node_id, types, filter, true, self.bonds)
        };
        let inc = if dir is Outgoing {
            Seq::empty()
        } else {
            self.reached(node_id, types, filter, false, self.bonds)
        };
        seq![self.nodes[self.node_index[node_id] as int]] + out + inc
    }

    /// The answer of `get_nodes_by_id_list`: for each listed id in turn,
    /// the indexed node with that id, unless a node with that id was
    /// already taken.
    pub open spec fn select_by_ids(self, ids: Seq<u128>) -> Seq<NodeView>
        decreases ids.len(),
    {
        if ids.len() == 0 {
            Seq::empty()
        } else {
            let prev = self.select_by_ids(ids.drop_last());
            let id = ids.last();
            if self.node_index.contains_key(id) && !node_ids(prev).contains(
                self.nodes[self.node_index[id] as int].id,
            ) {
                prev.push(self.nodes[self.node_index[id] as int])
            } else {
                prev
            }
        }
    }

    /// The answer of `get_nodes_by_label_list`: for each listed label in
    /// turn, the stored nodes carrying it, in storage order, skipping a
    /// node whose id was already taken.
    pub open spec fn select_by_labels(self, labels: Seq<Seq<char>>) -> Seq<NodeView>
        decreases labels.len(),
    {
        if labels.len() == 0 {
            Seq::empty()
        } else {
            scan_label(self.nodes, labels.last(), self.select_by_labels(labels.drop_last()))
        }
    }
}

/// `acc` extended by the nodes of `nodes` that carry `label`, in order,
/// skipping a node whose id `acc` (or an earlier one) already holds.
pub open spec fn scan_label(nodes: Seq<NodeView>, label: Seq<char>, acc: Seq<NodeView>) -> Seq<
    NodeView,
>
    decreases nodes.len(),
{
    if nodes.len() == 0 {
        acc
    } else {
        let prev = scan_label(nodes.drop_last(), label, acc);
        let n = nodes.last();
        if n.labels.contains(label) && !node_ids(prev).contains(n.id) {
            prev.push(n)
        } else {
            prev
        }
    }
}

/// Membership in a sequence after a push.
proof fn lemma_push_contains(s: Seq<u128>, v: u128)
    ensures
        forall|x: u128| #[trigger] s.push(v).contains(x) <==> (s.contains(x) || x == v),
{
    assert forall|x: u128| #[trigger] s.push(v).contains(x) <==> (s.contains(x) || x == v) by {
        if s.contains(x) {
            let k = choose|k: int| 0 <= k < s.len() && s[k] == x;
            assert(s.push(v)[k] == x);
        }
        if x == v {
            assert(s.push(v)[s.len() as int] == v);
        }
        if s.push(v).contains(x) {
            let k = choose|k: int| 0 <= k < s.push(v).len() && s.push(v)[k] == x;
            if k < s.len() {
                assert(s[k] == x);
            }
        }
    }
}

/// The graph-level operations that push into the collections as they are,
/// with no check.
pub trait Graph {
    fn create_node(&mut self, node: Node) -> Result<(), ()>;

    fn create_bond(&mut self, bond: Bond) -> Result<(), ()>;
}

/// The main graph model.
#[derive(Debug)]
pub struct InMemoryGraph {
    pub name: String,
    nodes_collection: Vec<Node>,
    bonds_collection: Vec<Bond>,
    nodes_id_index: BTreeMap<u128, usize>,
    bonds_id_index: BTreeMap<u128, usize>,
}

impl View for InMemoryGraph {
    type V = GraphView;

    closed spec fn view(&self) -> GraphView {
        GraphView {
            name: self.name@,
            nodes: node_views(self.nodes_collection@),
            bonds: bond_views(self.bonds_collection@),
            node_index: self.nodes_id_index@,
            bond_index: self.bonds_id_index@,
        }
    }
}

impl InMemoryGraph {
    /// Creates a new empty graph.
    pub fn new_graph(name: String) -> (g: Self)
        ensures
            g@ == GraphView::empty(name@),
            g@.exact(),
    {
        let g = InMemoryGraph {
            name,
            nodes_collection: Vec::new(),
            bonds_collection: Vec::new(),
            nodes_id_index: BTreeMap::new(),
            bonds_id_index: BTreeMap::new(),
        };
        assert(node_views(g.nodes_collection@) =~= Seq::empty());
        assert(bond_views(g.bonds_collection@) =~= Seq::empty());
        g
    }

    /// Maps a creation request to a new empty graph with the requested name.
    pub fn new_graph_from_dto(dto: CreateGraphDTO) -> (g: Self)
        ensures
            g@ == GraphView::empty(dto.name@),
            g@.exact(),
    {
        Self::new_graph(dto.name)
    }

    /// Drops the whole graph.
    pub fn delete_graph(self) {
    }

    /// The graph's name, the public `name` field.
    pub fn name(&self) -> (s: &String)
        ensures
            s@ == self@.name,
    {
        &self.name
    }

    /// Stores `node` under its id, unless the index already holds that id.
    pub fn register_node(&mut self, node: Node) -> (r: Result<(), ()>)
        requires
            old(self)@.wf(),
        ensures
            final(self)@.wf(),
            r is Err <==> old(self)@.node_index.contains_key(node.id),
            r is Err ==> final(self)@ == old(self)@,
            r is Ok ==> final(self)@ == old(self)@.with_indexed_node(node@),
            old(self)@.exact() && node.id != spec_nil_id() ==> final(self)@.exact(),
    {
        if self.nodes_id_index.contains_key(&node.id) {
            return Err(());
        }
        let ghost nv = node@;
        let len: usize = self.nodes_collection.len();
        self.nodes_id_index.insert(node.id, len);
        self.nodes_collection.push(node);
        proof {
            assert(node_views(self.nodes_collection@) =~= node_views(
                old(self).nodes_collection@,
            ).push(nv));
            let new_len: usize = self.nodes_collection.len();
            assert(old(self)@.nodes.len() == len && len < new_len);
            old(self)@.lemma_with_indexed_node_keeps_wf(nv);
            if old(self)@.exact() && nv.id != spec_nil_id() {
                old(self)@.lemma_with_indexed_node_keeps_exact(nv);
            }
        }
        Ok(())
    }

    /// Adds a node to the graph.
    ///
    /// A node with no label, or whose first label is blank, is refused.  A
    /// node with the nil id is given a fresh random id first.  A node whose
    /// id the index already holds is refused.
    pub fn add_node(&mut self, node: Node) -> (r: Result<(), ()>)
        requires
            old(self)@.wf(),
        ensures
            final(self)@.wf(),
            labels_rejected(node@.labels) ==> r is Err,
            !labels_rejected(node@.labels) && node.id != spec_nil_id() ==> (r is Err
                <==> old(self)@.node_index.contains_key(node.id)),
            node.id == spec_nil_id() && !labels_rejected(node@.labels) && r is Err ==> exists|
                id: u128,
            | is_random_id(id) && #[trigger] old(self)@.node_index.contains_key(id),
            old(self)@.exact() ==> final(self)@.exact(),
            r is Err ==> final(self)@ == old(self)@,
            r is Ok ==> {
                let id = final(self)@.nodes.last().id;
                &&& !labels_rejected(node@.labels)
                &&& !old(self)@.node_index.contains_key(id)
                &&& node.id != spec_nil_id() ==> id == node.id
                &&& node.id == spec_nil_id() ==> is_random_id(id)
                &&& final(self)@ == old(self)@.with_indexed_node(
                    NodeView { id, labels: node@.labels },
                )
            },
    {
        if node.labels.len() == 0 || is_blank(node.labels[0].as_str()) {
            return Err(());
        }
        let mut node = node;
        let given: u128 = node.id;
        if given == nil_id() {
            node.id = new_random_id();
            proof {
                lemma_random_id_not_nil(node.id);
            }
        }
        let ghost stored = node@;
        let r = self.register_node(node);
        proof {
            if r is Ok {
                assert(final(self)@.nodes.last() == stored);
            } else if given == spec_nil_id() {
                assert(is_random_id(stored.id) && old(self)@.node_index.contains_key(stored.id));
            }
        }
        r
    }

    /// Whether some stored node has the id `id`.
    fn has_node_with_id(&self, id: u128) -> (r: bool)
        ensures
            r == self@.has_node_id(id),
    {
        let mut i: usize = 0;
        while i < self.nodes_collection.len()
            invariant
                i <= self.nodes_collection.len(),
                forall|j: int| 0 <= j < i ==> self.nodes_collection@[j].id != id,
            decreases self.nodes_collection.len() - i,
        {
            if self.nodes_collection[i].id == id {
                assert(self@.nodes[i as int].id == id);
                return true;
            }
            i = i + 1;
        }
        assert forall|j: int| 0 <= j < self@.nodes.len() implies self@.nodes[j].id != id by {
            assert(self@.nodes[j] == self.nodes_collection@[j]@);
        }
        false
    }

    /// Adds a bond to the graph under a fresh random id.
    ///
    /// A bond with a nil endpoint, a blank label, or an endpoint that no
    /// stored node carries is refused.
    pub fn add_bond(&mut self, bond: Bond) -> (r: Result<(), ()>)
        ensures
            r is Err <==> bond_rejected(old(self)@, bond@),
            r is Err ==> final(self)@ == old(self)@,
            r is Ok ==> {
                let id = final(self)@.bonds.last().id;
                &&& is_random_id(id)
                &&& final(self)@ == old(self)@.with_bond(BondView { id, ..bond@ })
            },
    {
        let nil: u128 = nil_id();
        if bond.src == nil || bond.dst == nil {
            return Err(());
        }
        if is_blank(bond.label.as_str()) {
            return Err(());
        }
        let is_src_exists = self.has_node_with_id(bond.src);
        let is_dst_exists = self.has_node_with_id(bond.dst);
        if !is_src_exists || !is_dst_exists {
            return Err(());
        }
        let mut bond = bond;
        bond.id = new_random_id();
        let ghost bv = bond@;
        self.bonds_collection.push(bond);
        proof {
            assert(bond_views(self.bonds_collection@) =~= bond_views(
                old(self).bonds_collection@,
            ).push(bv));
            assert(final(self)@.bonds.last() == bv);
        }
        Ok(())
    }

    /// Appends to `out` what node `n` contributes under the label filter.
    fn push_hits<'a>(n: &'a Node, filter: &Vec<String>, out: &mut Vec<&'a Node>)
        ensures
            node_refs(final(out)@) == node_refs(old(out)@) + node_hits(n@, texts(filter@)),
    {
        let ghost start = node_refs(out@);
        if filter.len() == 0 {
            out.push(n);
            proof {
                assert(node_refs(out@) =~= start + seq![n@]);
            }
            return;
        }
        let mut k: usize = 0;
        while k < n.labels.len()
            invariant
                k <= n.labels.len(),
                filter.len() > 0,
                start == node_refs(old(out)@),
                node_refs(out@) == start,
                forall|j: int| 0 <= j < k ==> !texts(filter@).contains(#[trigger] n@.labels[j]),
            decreases n.labels.len() - k,
        {
            if crate::text::contains_text(filter, &n.labels[k]) {
                out.push(n);
                proof {
                    assert(n@.labels[k as int] == n.labels@[k as int]@);
                    assert(labels_meet(n@.labels, texts(filter@)));
                    assert(node_refs(out@) =~= start + seq![n@]);
                }
                return;
            }
            proof {
                assert(n@.labels[k as int] == n.labels@[k as int]@);
            }
            k = k + 1;
        }
        proof {
            assert(!labels_meet(n@.labels, texts(filter@)));
            assert(node_refs(out@) =~= start + Seq::<NodeView>::empty());
        }
    }

    /// Appends to `out` the nodes reached from `node_id` over the bonds in
    /// one direction.
    fn push_reached<'a>(
        &'a self,
        node_id: u128,
        types: &Vec<String>,
        filter: &Vec<String>,
        outgoing: bool,
        out: &mut Vec<&'a Node>,
    )
        requires
            self@.wf(),
            forall|i: int|
                0 <= i < self@.bonds.len() && follows(
                    #[trigger] self@.bonds[i],
                    node_id,
                    texts(types@),
                    outgoing,
                ) ==> self@.node_index.contains_key(far_end(self@.bonds[i], outgoing)),
        ensures
            node_refs(final(out)@) == node_refs(old(out)@) + self@.reached(
                node_id,
                texts(types@),
                texts(filter@),
                outgoing,
                self@.bonds,
            ),
    {
        let ghost start = node_refs(out@);
        let ghost g = self@;
        let ghost ty = texts(types@);
        let ghost fl = texts(filter@);
        let mut i: usize = 0;
        while i < self.bonds_collection.len()
            invariant
                g == self@,
                ty == texts(types@),
                fl == texts(filter@),
                g.wf(),
                i <= self.bonds_collection.len(),
                forall|j: int|
                    0 <= j < g.bonds.len() && follows(#[trigger] g.bonds[j], node_id, ty, outgoing)
                        ==> g.node_index.contains_key(far_end(g.bonds[j], outgoing)),
                node_refs(out@) == start + g.reached(
                    node_id,
                    ty,
                    fl,
                    outgoing,
                    g.bonds.take(i as int),
                ),
            decreases self.bonds_collection.len() - i,
        {
            let ghost before = node_refs(out@);
            let b = &self.bonds_collection[i];
            proof {
                assert(g.bonds.take(i + 1).drop_last() =~= g.bonds.take(i as int));
                assert(g.bonds.take(i + 1).last() == b@);
                assert(g.bonds[i as int] == b@);
            }
            let near: u128 = if outgoing { b.src } else { b.dst };
            let selected = near == node_id && (types.len() == 0 || crate::text::contains_text(
                types,
                &b.label,
            ));
            if selected {
                let far: u128 = if outgoing { b.dst } else { b.src };
                let slot: usize = *self.nodes_id_index.get(&far).unwrap();
                let n = &self.nodes_collection[slot];
                proof {
                    assert(g.nodes[slot as int] == n@);
                }
                Self::push_hits(n, filter, out);
                proof {
                    assert(node_refs(out@) =~= start + g.reached(
                        node_id,
                        ty,
                        fl,
                        outgoing,
                        g.bonds.take(i + 1),
                    ));
                }
            }
            i = i + 1;
        }
        proof {
            assert(g.bonds.take(self.bonds_collection.len() as int) =~= g.bonds);
        }
    }

    /// The nodes connected to `node_id`: the node itself, then the nodes at
    /// the far end of its bonds in the directions `direction` takes,
    /// filtered by bond label (`bond_types`, empty for all) and node label
    /// (`node_labels`, empty for all: a reached node is added, once, only if
    /// its labels intersect `node_labels`).  Refused when `node_id` is not
    /// indexed.
    pub fn get_connected_nodes(
        &self,
        node_id: u128,
        bond_types: Vec<String>,
        node_labels: Vec<String>,
        direction: BondDirection,
    ) -> (r: Result<Vec<&Node>, ()>)
        requires
            self@.wf(),
            self@.node_index.contains_key(node_id) ==> self@.far_ends_indexed(
                node_id,
                texts(bond_types@),
                direction,
            ),
        ensures
            r is Err <==> !self@.node_index.contains_key(node_id),
            r matches Ok(v) ==> node_refs(v@) == self@.connected(
                node_id,
                texts(bond_types@),
                texts(node_labels@),
                direction,
            ),
    {
        let slot: usize = match self.nodes_id_index.get(&node_id) {
            Some(s) => *s,
            None => {
                return Err(());
            },
        };
        proof {
            assert(self@.node_index.contains_key(node_id));
            assert(self@.node_index[node_id] == slot);
            assert(self@.nodes[slot as int] == self.nodes_collection@[slot as int]@);
        }
        let mut nodes_refs: Vec<&Node> = Vec::new();
        nodes_refs.push(&self.nodes_collection[slot]);
        let ghost g = self@;
        let ghost ty = texts(bond_types@);
        let ghost fl = texts(node_labels@);
        proof {
            assert(node_refs(nodes_refs@) =~= seq![g.nodes[slot as int]]);
        }
        let ghost first = node_refs(nodes_refs@);
        let ghost after_out = if direction is Ingoing {
            first
        } else {
            first + g.reached(node_id, ty, fl, true, g.bonds)
        };
        match direction {
            BondDirection::Ingoing => {},
            _ => {
                proof {
                    assert forall|i: int|
                        0 <= i < g.bonds.len() && follows(
                            #[trigger] g.bonds[i],
                            node_id,
                            ty,
                            true,
                        ) implies g.node_index.contains_key(far_end(g.bonds[i], true)) by {}
                }
                self.push_reached(node_id, &bond_types, &node_labels, true, &mut nodes_refs);
            },
        }
        match direction {
            BondDirection::Outgoing => {},
            _ => {
                proof {
                    assert forall|i: int|
                        0 <= i < g.bonds.len() && follows(
                            #[trigger] g.bonds[i],
                            node_id,
                            ty,
                            false,
                        ) implies g.node_index.contains_key(far_end(g.bonds[i], false)) by {}
                }
                self.push_reached(node_id, &bond_types, &node_labels, false, &mut nodes_refs);
            },
        }
        proof {
            assert(node_refs(nodes_refs@) =~= g.connected(node_id, ty, fl, direction));
        }
        Ok(nodes_refs)
    }

    /// The indexed nodes whose ids `uuid_list` lists, in list order, each
    /// node once.  Always succeeds.
    pub fn get_nodes_by_id_list(&self, uuid_list: Vec<u128>) -> (r: Result<Vec<&Node>, ()>)
        requires
            self@.wf(),
        ensures
            r matches Ok(v) && node_refs(v@) == self@.select_by_ids(uuid_list@),
    {
        broadcast use vstd::std_specs::hash::group_hash_axioms;

        let mut existing_node_refs: Vec<&Node> = Vec::new();
        let mut existing_uuids_set: HashSet<u128> = HashSet::new();
        let ghost g = self@;
        let mut i: usize = 0;
        while i < uuid_list.len()
            invariant
                g == self@,
                g.wf(),
                i <= uuid_list.len(),
                node_refs(existing_node_refs@) == g.select_by_ids(uuid_list@.take(i as int)),
                forall|x: u128|
                    #[trigger] existing_uuids_set@.contains(x) <==> node_ids(
                        node_refs(existing_node_refs@),
                    ).contains(x),
            decreases uuid_list.len() - i,
        {
            let ghost before = node_refs(existing_node_refs@);
            proof {
                assert(uuid_list@.take(i + 1).drop_last() =~= uuid_list@.take(i as int));
                assert(uuid_list@.take(i + 1).last() == uuid_list@[i as int]);
            }
            match self.nodes_id_index.get(&uuid_list[i]) {
                Some(n) => {
                    let slot: usize = *n;
                    proof {
                        assert(g.node_index.contains_key(uuid_list@[i as int]));
                        assert(g.nodes[slot as int] == self.nodes_collection@[slot as int]@);
                    }
                    let node_ref = &self.nodes_collection[slot];
                    if !existing_uuids_set.contains(&node_ref.id) {
                        existing_node_refs.push(node_ref);
                        existing_uuids_set.insert(node_ref.id);
                        proof {
                            assert(node_refs(existing_node_refs@) =~= before.push(node_ref@));
                            assert(node_ids(before.push(node_ref@)) =~= node_ids(before).push(
                                node_ref.id,
                            ));
                            lemma_push_contains(node_ids(before), node_ref.id);
                        }
                    }
                },
                None => {},
            }
            i = i + 1;
        }
        proof {
            assert(uuid_list@.take(uuid_list.len() as int) =~= uuid_list@);
        }
        Ok(existing_node_refs)
    }

    /// The stored nodes carrying one of the labels of `label_list`: for each
    /// listed label in turn, the nodes carrying it in storage order,
    /// skipping a node whose id was already taken.  Always succeeds.
    pub fn get_nodes_by_label_list(&self, label_list: Vec<String>) -> (r: Result<Vec<&Node>, ()>)
        ensures
            r matches Ok(v) && node_refs(v@) == self@.select_by_labels(texts(label_list@)),
    {
        broadcast use vstd::std_specs::hash::group_hash_axioms;

        let mut existing_node_refs: Vec<&Node> = Vec::new();
        let mut existing_uuids_set: HashSet<u128> = HashSet::new();
        let ghost g = self@;
        let ghost ls = texts(label_list@);
        let mut i: usize = 0;
        while i < label_list.len()
            invariant
                g == self@,
                ls == texts(label_list@),
                i <= label_list.len(),
                node_refs(existing_node_refs@) == g.select_by_labels(ls.take(i as int)),
                forall|x: u128|
                    #[trigger] existing_uuids_set@.contains(x) <==> node_ids(
                        node_refs(existing_node_refs@),
                    ).contains(x),
            decreases label_list.len() - i,
        {
            let ghost acc0 = node_refs(existing_node_refs@);
            let ghost label = ls[i as int];
            proof {
                assert(ls.take(i + 1).drop_last() =~= ls.take(i as int));
                assert(ls.take(i + 1).last() == label);
                assert(label == label_list@[i as int]@);
            }
            let mut j: usize = 0;
            while j < self.nodes_collection.len()
                invariant
                    g == self@,
                    j <= self.nodes_collection.len(),
                    label == label_list@[i as int]@,
                    i < label_list.len(),
                    node_refs(existing_node_refs@) == scan_label(g.nodes.take(j as int), label, acc0),
                    forall|x: u128|
                        #[trigger] existing_uuids_set@.contains(x) <==> node_ids(
                            node_refs(existing_node_refs@),
                        ).contains(x),
                decreases self.nodes_collection.len() - j,
            {
                let ghost before = node_refs(existing_node_refs@);
                let node_ref = &self.nodes_collection[j];
                proof {
                    assert(g.nodes.take(j + 1).drop_last() =~= g.nodes.take(j as int));
                    assert(g.nodes.take(j + 1).last() == node_ref@);
                }
                if crate::text::contains_text(&node_ref.labels, &label_list[i])
                    && !existing_uuids_set.contains(&node_ref.id) {
                    existing_uuids_set.insert(node_ref.id);
                    existing_node_refs.push(node_ref);
                    proof {
                        assert(node_refs(existing_node_refs@) =~= before.push(node_ref@));
                        assert(node_ids(before.push(node_ref@)) =~= node_ids(before).push(
                            node_ref.id,
                        ));
                        lemma_push_contains(node_ids(before), node_ref.id);
                    }
                }
                j = j + 1;
            }
            proof {
                assert(g.nodes.take(self.nodes_collection.len() as int) =~= g.nodes);
            }
            i = i + 1;
        }
        proof {
            assert(ls.take(label_list.len() as int) =~= ls);
        }
        Ok(existing_node_refs)
    }

    /// The stored nodes, in storage order.
    pub fn nodes(&self) -> (v: &Vec<Node>)
        ensures
            node_views(v@) == self@.nodes,
    {
        &self.nodes_collection
    }

    /// The stored bonds, in insertion order.
    pub fn bonds(&self) -> (v: &Vec<Bond>)
        ensures
            bond_views(v@) == self@.bonds,
    {
        &self.bonds_collection
    }

    /// The storage slot that the index gives for `id`.
    pub fn node_slot(&self, id: u128) -> (r: Option<usize>)
        ensures
            r == (if self@.node_index.contains_key(id) {
                Some(self@.node_index[id])
            } else {
                None
            }),
    {
        match self.nodes_id_index.get(&id) {
            Some(s) => Some(*s),
            None => None,
        }
    }

    /// The number of stored nodes.
    pub fn get_graph_nodes_number(&self) -> (n: usize)
        ensures
            n == self@.nodes.len(),
    {
        self.nodes_collection.len()
    }
}

impl Graph for InMemoryGraph {
    /// Appends `node` to the stored nodes, with no check and no indexing.
    fn create_node(&mut self, node: Node) -> (r: Result<(), ()>)
        ensures
            r is Ok,
            final(self)@ == old(self)@.with_node(node@),
            old(self)@.wf() ==> final(self)@.wf(),
    {
        let ghost nv = node@;
        self.nodes_collection.push(node);
        proof {
            assert(node_views(self.nodes_collection@) =~= node_views(
                old(self).nodes_collection@,
            ).push(nv));
            let new_len: usize = self.nodes_collection.len();
            assert(old(self)@.nodes.len() < new_len);
            old(self)@.lemma_with_node_keeps_wf(nv);
        }
        Ok(())
    }

    /// Appends `bond` to the stored bonds, with no check.
    fn create_bond(&mut self, bond: Bond) -> (r: Result<(), ()>)
        ensures
            r is Ok,
            final(self)@ == old(self)@.with_bond(bond@),
    {
        let ghost bv = bond@;
        self.bonds_collection.push(bond);
        proof {
            assert(bond_views(self.bonds_collection@) =~= bond_views(
                old(self).bonds_collection@,
            ).push(bv));
        }
        Ok(())
    }
}

/// Maps a creation request to a new empty graph, refusing a name that one of
/// `graphs` already carries.
pub fn validate_and_map_graph(dto: CreateGraphDTO, graphs: &Vec<InMemoryGraph>) -> (r: Result<
    InMemoryGraph,
    (),
>)
    ensures
        r is Err <==> exists|i: int| 0 <= i < graphs.len() && #[trigger] graphs@[i]@.name == dto.name@,
        r matches Ok(g) ==> g@ == GraphView::empty(dto.name@) && g@.wf(),
{
    let mut i: usize = 0;
    while i < graphs.len()
        invariant
            i <= graphs.len(),
            forall|j: int| 0 <= j < i ==> #[trigger] graphs@[j]@.name != dto.name@,
        decreases graphs.len() - i,
    {
        if dto.name == graphs[i].name {
            assert(graphs@[i as int]@.name == dto.name@);
            return Err(());
        }
        i = i + 1;
    }
    Ok(InMemoryGraph::new_graph(dto.name))
}

} // verus!
