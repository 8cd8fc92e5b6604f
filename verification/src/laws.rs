//! Properties of the graph that span its operations, proved over the
//! mathematical model that the operations' contracts speak of.

use vstd::prelude::*;

use crate::text::is_white_space;

use crate::core_model::{
    bond_rejected, far_end, follows, labels_rejected, labels_meet, node_hits, node_ids, scan_label, BondDirection, BondView,
    GraphView, NodeView, node_refs, Node,
};

verus! {

/// Pushing an element that a sequence does not hold keeps it free of
/// duplicates.
proof fn lemma_push_no_duplicates(s: Seq<u128>, v: u128)
    requires
        s.no_duplicates(),
        !s.contains(v),
    ensures
        s.push(v).no_duplicates(),
{
    let t = s.push(v);
    assert forall|i: int, j: int| 0 <= i < t.len() && 0 <= j < t.len() && i != j implies t[i]
        != t[j] by {
        if i < s.len() && j < s.len() {
            assert(t[i] == s[i] && t[j] == s[j]);
        } else if i < s.len() {
            assert(t[i] == s[i]);
            assert(s.contains(s[i]));
        } else if j < s.len() {
            assert(t[j] == s[j]);
            assert(s.contains(s[j]));
        }
    }
}

proof fn lemma_ids_of_push(s: Seq<NodeView>, n: NodeView)
    ensures
        node_ids(s.push(n)) == node_ids(s).push(n.id),
{
    assert(node_ids(s.push(n)) =~= node_ids(s).push(n.id));
}

/// A node added under a fresh id is found again through the index: the id
/// leads to the new last slot, the node stored there is the node added,
/// the index stays sound, and the node count grows by one.
pub proof fn law_added_node_is_found(g: GraphView, n: NodeView)
    requires
        g.wf(),
        !g.node_index.contains_key(n.id),
        g.nodes.len() < usize::MAX,
    ensures
        ({
            let h = g.with_indexed_node(n);
            &&& h.node_index.contains_key(n.id)
            &&& h.node_index[n.id] == g.nodes.len()
            &&& h.nodes[h.node_index[n.id] as int] == n
            &&& h.nodes.len() == g.nodes.len() + 1
            &&& h.wf()
        }),
{
    g.lemma_with_indexed_node_keeps_wf(n);
}

/// Adding a node leaves every node that was already indexed where it was.
pub proof fn law_add_node_keeps_indexed_nodes(g: GraphView, n: NodeView, id: u128)
    requires
        g.wf(),
        !g.node_index.contains_key(n.id),
        g.node_index.contains_key(id),
    ensures
        ({
            let h = g.with_indexed_node(n);
            &&& h.node_index.contains_key(id)
            &&& h.node_index[id] == g.node_index[id]
            &&& h.nodes[h.node_index[id] as int] == g.nodes[g.node_index[id] as int]
        }),
{
}

/// In a graph whose index is exact (every graph built only with `add_node`
/// is), no two stored nodes share an id.
pub proof fn law_exact_ids_unique(g: GraphView, i: int, j: int)
    requires
        g.exact(),
        0 <= i < g.nodes.len(),
        0 <= j < g.nodes.len(),
        i != j,
    ensures
        g.nodes[i].id != g.nodes[j].id,
{
    assert(g.node_index[g.nodes[i].id] == i);
    assert(g.node_index[g.nodes[j].id] == j);
}

/// `get_nodes_by_id_list` never hands out two nodes with the same id.
pub proof fn law_select_by_ids_distinct(g: GraphView, ids: Seq<u128>)
    ensures
        node_ids(g.select_by_ids(ids)).no_duplicates(),
    decreases ids.len(),
{
    if ids.len() > 0 {
        law_select_by_ids_distinct(g, ids.drop_last());
        let prev = g.select_by_ids(ids.drop_last());
        let id = ids.last();
        if g.node_index.contains_key(id) && !node_ids(prev).contains(
            g.nodes[g.node_index[id] as int].id,
        ) {
            let n = g.nodes[g.node_index[id] as int];
            lemma_ids_of_push(prev, n);
            lemma_push_no_duplicates(node_ids(prev), n.id);
        }
    }
}

/// Every node `get_nodes_by_id_list` hands out is the indexed node of an id
/// that the list holds.
pub proof fn law_select_by_ids_sound(g: GraphView, ids: Seq<u128>, k: int)
    requires
        g.wf(),
        0 <= k < g.select_by_ids(ids).len(),
    ensures
        ({
            let n = g.select_by_ids(ids)[k];
            &&& ids.contains(n.id)
            &&& g.node_index.contains_key(n.id)
            &&& g.nodes[g.node_index[n.id] as int] == n
        }),
    decreases ids.len(),
{
    let prev = g.select_by_ids(ids.drop_last());
    if k < prev.len() {
        law_select_by_ids_sound(g, ids.drop_last(), k);
        let n = prev[k];
        let j = choose|j: int| 0 <= j < ids.drop_last().len() && ids.drop_last()[j] == n.id;
        assert(ids[j] == n.id);
    } else {
        assert(ids[ids.len() - 1] == ids.last());
    }
}

/// Every indexed id that the list holds has its node handed out by
/// `get_nodes_by_id_list`.
pub proof fn law_select_by_ids_complete(g: GraphView, ids: Seq<u128>, id: u128)
    requires
        g.wf(),
        ids.contains(id),
        g.node_index.contains_key(id),
    ensures
        node_ids(g.select_by_ids(ids)).contains(id),
    decreases ids.len(),
{
    let prev = g.select_by_ids(ids.drop_last());
    let last = ids.last();
    if last == id {
        let n = g.nodes[g.node_index[id] as int];
        if !node_ids(prev).contains(n.id) {
            lemma_ids_of_push(prev, n);
            assert(node_ids(g.select_by_ids(ids))[prev.len() as int] == id);
        }
    } else {
        let j = choose|j: int| 0 <= j < ids.len() && ids[j] == id;
        assert(ids.drop_last()[j] == id);
        law_select_by_ids_complete(g, ids.drop_last(), id);
        let k = choose|k: int| 0 <= k < node_ids(prev).len() && node_ids(prev)[k] == id;
        if g.node_index.contains_key(last) && !node_ids(prev).contains(
            g.nodes[g.node_index[last] as int].id,
        ) {
            lemma_ids_of_push(prev, g.nodes[g.node_index[last] as int]);
            assert(node_ids(g.select_by_ids(ids))[k] == id);
        }
    }
}

/// The accumulated nodes stay, in place, at the front of a label scan.
proof fn lemma_scan_extends(nodes: Seq<NodeView>, label: Seq<char>, acc: Seq<NodeView>)
    ensures
        scan_label(nodes, label, acc).len() >= acc.len(),
        forall|k: int| 0 <= k < acc.len() ==> #[trigger] scan_label(nodes, label, acc)[k] == acc[k],
    decreases nodes.len(),
{
    if nodes.len() > 0 {
        lemma_scan_extends(nodes.drop_last(), label, acc);
    }
}

proof fn lemma_scan_distinct(nodes: Seq<NodeView>, label: Seq<char>, acc: Seq<NodeView>)
    requires
        node_ids(acc).no_duplicates(),
    ensures
        node_ids(scan_label(nodes, label, acc)).no_duplicates(),
    decreases nodes.len(),
{
    if nodes.len() > 0 {
        lemma_scan_distinct(nodes.drop_last(), label, acc);
        let prev = scan_label(nodes.drop_last(), label, acc);
        let n = nodes.last();
        if n.labels.contains(label) && !node_ids(prev).contains(n.id) {
            lemma_ids_of_push(prev, n);
            lemma_push_no_duplicates(node_ids(prev), n.id);
        }
    }
}

proof fn lemma_scan_sound(nodes: Seq<NodeView>, label: Seq<char>, acc: Seq<NodeView>, k: int)
    requires
        acc.len() <= k < scan_label(nodes, label, acc).len(),
    ensures
        nodes.contains(scan_label(nodes, label, acc)[k]),
        scan_label(nodes, label, acc)[k].labels.contains(label),
    decreases nodes.len(),
{
    let prev = scan_label(nodes.drop_last(), label, acc);
    if k < prev.len() {
        lemma_scan_sound(nodes.drop_last(), label, acc, k);
        let j = choose|j: int| 0 <= j < nodes.drop_last().len() && nodes.drop_last()[j] == prev[k];
        assert(nodes[j] == prev[k]);
    } else {
        assert(nodes[nodes.len() - 1] == nodes.last());
    }
}

proof fn lemma_scan_complete(nodes: Seq<NodeView>, label: Seq<char>, acc: Seq<NodeView>, i: int)
    requires
        0 <= i < nodes.len(),
        nodes[i].labels.contains(label),
    ensures
        node_ids(scan_label(nodes, label, acc)).contains(nodes[i].id),
    decreases nodes.len(),
{
    let prev = scan_label(nodes.drop_last(), label, acc);
    let n = nodes.last();
    let res = scan_label(nodes, label, acc);
    if i == nodes.len() - 1 {
        if !node_ids(prev).contains(n.id) {
            lemma_ids_of_push(prev, n);
            assert(node_ids(res)[prev.len() as int] == n.id);
        } else {
            let k = choose|k: int| 0 <= k < node_ids(prev).len() && node_ids(prev)[k] == n.id;
            assert(node_ids(res)[k] == n.id);
        }
    } else {
        assert(nodes.drop_last()[i] == nodes[i]);
        lemma_scan_complete(nodes.drop_last(), label, acc, i);
        let k = choose|k: int| 0 <= k < node_ids(prev).len() && node_ids(prev)[k] == nodes[i].id;
        if n.labels.contains(label) && !node_ids(prev).contains(n.id) {
            lemma_ids_of_push(prev, n);
        }
        assert(node_ids(res)[k] == nodes[i].id);
    }
}

/// `get_nodes_by_label_list` never hands out two nodes with the same id.
pub proof fn law_select_by_labels_distinct(g: GraphView, labels: Seq<Seq<char>>)
    ensures
        node_ids(g.select_by_labels(labels)).no_duplicates(),
    decreases labels.len(),
{
    if labels.len() > 0 {
        law_select_by_labels_distinct(g, labels.drop_last());
        lemma_scan_distinct(g.nodes, labels.last(), g.select_by_labels(labels.drop_last()));
    } else {
        assert(node_ids(g.select_by_labels(labels)) =~= Seq::<u128>::empty());
    }
}

/// Every node `get_nodes_by_label_list` hands out is a stored node that
/// carries one of the listed labels.
pub proof fn law_select_by_labels_sound(g: GraphView, labels: Seq<Seq<char>>, k: int)
    requires
        0 <= k < g.select_by_labels(labels).len(),
    ensures
        g.nodes.contains(g.select_by_labels(labels)[k]),
        exists|j: int|
            0 <= j < labels.len() && g.select_by_labels(labels)[k].labels.contains(
                #[trigger] labels[j],
            ),
    decreases labels.len(),
{
    let prev = g.select_by_labels(labels.drop_last());
    lemma_scan_extends(g.nodes, labels.last(), prev);
    if k < prev.len() {
        law_select_by_labels_sound(g, labels.drop_last(), k);
        let j = choose|j: int|
            0 <= j < labels.drop_last().len() && prev[k].labels.contains(
                #[trigger] labels.drop_last()[j],
            );
        assert(labels[j] == labels.drop_last()[j]);
    } else {
        lemma_scan_sound(g.nodes, labels.last(), prev, k);
        assert(labels[labels.len() - 1] == labels.last());
    }
}

/// Every stored node that carries a listed label has its id among the nodes
/// `get_nodes_by_label_list` hands out.
pub proof fn law_select_by_labels_complete(g: GraphView, labels: Seq<Seq<char>>, i: int, j: int)
    requires
        0 <= i < g.nodes.len(),
        0 <= j < labels.len(),
        g.nodes[i].labels.contains(labels[j]),
    ensures
        node_ids(g.select_by_labels(labels)).contains(g.nodes[i].id),
    decreases labels.len(),
{
    let prev = g.select_by_labels(labels.drop_last());
    let res = g.select_by_labels(labels);
    if j == labels.len() - 1 {
        lemma_scan_complete(g.nodes, labels.last(), prev, i);
    } else {
        assert(labels.drop_last()[j] == labels[j]);
        law_select_by_labels_complete(g, labels.drop_last(), i, j);
        lemma_scan_extends(g.nodes, labels.last(), prev);
        let k = choose|k: int| 0 <= k < node_ids(prev).len() && node_ids(prev)[k] == g.nodes[i].id;
        assert(node_ids(res)[k] == g.nodes[i].id);
    }
}

/// The answer of `get_connected_nodes` starts with the node asked about.
pub proof fn law_connected_starts_with_node(
    g: GraphView,
    node_id: u128,
    types: Seq<Seq<char>>,
    filter: Seq<Seq<char>>,
    dir: BondDirection,
)
    requires
        g.wf(),
        g.node_index.contains_key(node_id),
    ensures
        g.connected(node_id, types, filter, dir).len() >= 1,
        g.connected(node_id, types, filter, dir)[0] == g.nodes[g.node_index[node_id] as int],
        g.connected(node_id, types, filter, dir)[0].id == node_id,
{
}

/// Following both directions gives the node, then what the outgoing bonds
/// reach, then what the incoming bonds reach: the outgoing answer followed
/// by the incoming answer without its first element.
pub proof fn law_connected_both_directions(
    g: GraphView,
    node_id: u128,
    types: Seq<Seq<char>>,
    filter: Seq<Seq<char>>,
)
    ensures
        g.connected(node_id, types, filter, BondDirection::Both) == g.connected(
            node_id,
            types,
            filter,
            BondDirection::Outgoing,
        ) + g.connected(node_id, types, filter, BondDirection::Ingoing).drop_first(),
{
    let i = g.connected(node_id, types, filter, BondDirection::Ingoing);
    assert(i.drop_first() =~= g.reached(node_id, types, filter, false, g.bonds));
    assert(g.connected(node_id, types, filter, BondDirection::Both) =~= g.connected(
        node_id,
        types,
        filter,
        BondDirection::Outgoing,
    ) + i.drop_first());
}

/// With no node-label filter, every bond that touches the node at the end
/// asked for and whose label the bond-type list lists (or the list is
/// empty) contributes exactly one node: as many nodes are reached as there
/// are such bonds (`taken` picks them out).
pub proof fn law_reached_unfiltered_count(
    g: GraphView,
    node_id: u128,
    types: Seq<Seq<char>>,
    outgoing: bool,
    bonds: Seq<BondView>,
    taken: spec_fn(BondView) -> bool,
)
    requires
        forall|b: BondView|
            #[trigger] taken(b) == ((if outgoing { b.src } else { b.dst }) == node_id && (types.len()
                == 0 || types.contains(b.label))),
    ensures
        g.reached(node_id, types, Seq::empty(), outgoing, bonds).len() == bonds.filter(taken).len(),
    decreases bonds.len(),
{
    reveal_with_fuel(Seq::filter, 1);
    if bonds.len() > 0 {
        law_reached_unfiltered_count(g, node_id, types, outgoing, bonds.drop_last(), taken);
        assert(taken(bonds.last()) == follows(bonds.last(), node_id, types, outgoing));
    }
}

/// Every node reached over a bond is the indexed node at the far end of a
/// bond that touches the node at the end asked for and whose label passes
/// the bond-type list; when a node-label filter is given, the node carries
/// a label that the filter lists.
pub proof fn law_reached_sound(
    g: GraphView,
    node_id: u128,
    types: Seq<Seq<char>>,
    filter: Seq<Seq<char>>,
    outgoing: bool,
    bonds: Seq<BondView>,
    k: int,
)
    requires
        0 <= k < g.reached(node_id, types, filter, outgoing, bonds).len(),
    ensures
        ({
            let n = g.reached(node_id, types, filter, outgoing, bonds)[k];
            &&& exists|i: int|
                #![trigger bonds[i]]
                0 <= i < bonds.len() && {
                    let b = bonds[i];
                    let near = if outgoing { b.src } else { b.dst };
                    let far = if outgoing { b.dst } else { b.src };
                    &&& near == node_id
                    &&& types.len() == 0 || types.contains(b.label)
                    &&& n == g.nodes[g.node_index[far] as int]
                }
            &&& filter.len() > 0 ==> exists|j: int|
                0 <= j < n.labels.len() && filter.contains(#[trigger] n.labels[j])
        }),
    decreases bonds.len(),
{
    let prev = g.reached(node_id, types, filter, outgoing, bonds.drop_last());
    let res = g.reached(node_id, types, filter, outgoing, bonds);
    let b = bonds.last();
    if k < prev.len() {
        law_reached_sound(g, node_id, types, filter, outgoing, bonds.drop_last(), k);
        let i = choose|i: int|
            #![trigger bonds.drop_last()[i]]
            0 <= i < bonds.drop_last().len() && {
                let c = bonds.drop_last()[i];
                let near = if outgoing { c.src } else { c.dst };
                let far = if outgoing { c.dst } else { c.src };
                &&& near == node_id
                &&& types.len() == 0 || types.contains(c.label)
                &&& prev[k] == g.nodes[g.node_index[far] as int]
            };
        assert(bonds[i] == bonds.drop_last()[i]);
        assert(res[k] == prev[k]);
    } else {
        let m = g.nodes[g.node_index[far_end(b, outgoing)] as int];
        assert(follows(b, node_id, types, outgoing));
        assert(res[k] == node_hits(m, filter)[k - prev.len()]);
        assert(bonds[bonds.len() - 1] == b);
        if filter.len() > 0 {
            assert(labels_meet(m.labels, filter));
        }
    }
}

/// Every bond that touches the node at the end asked for and whose label
/// the bond-type list lists (or the list is empty) brings the indexed node
/// at its far end into the answer, provided that node carries, at any
/// position, a label the node-label filter lists (or the filter is empty).
pub proof fn law_reached_complete(
    g: GraphView,
    node_id: u128,
    types: Seq<Seq<char>>,
    filter: Seq<Seq<char>>,
    outgoing: bool,
    bonds: Seq<BondView>,
    i: int,
    far: u128,
)
    requires
        0 <= i < bonds.len(),
        (if outgoing { bonds[i].src } else { bonds[i].dst }) == node_id,
        far == (if outgoing { bonds[i].dst } else { bonds[i].src }),
        types.len() == 0 || types.contains(bonds[i].label),
        filter.len() == 0 || exists|j: int|
            0 <= j < g.nodes[g.node_index[far] as int].labels.len() && filter.contains(
                #[trigger] g.nodes[g.node_index[far] as int].labels[j],
            ),
    ensures
        g.reached(node_id, types, filter, outgoing, bonds).contains(
            g.nodes[g.node_index[far] as int],
        ),
    decreases bonds.len(),
{
    let n = g.nodes[g.node_index[far] as int];
    let prev = g.reached(node_id, types, filter, outgoing, bonds.drop_last());
    let res = g.reached(node_id, types, filter, outgoing, bonds);
    if i < bonds.len() - 1 {
        assert(bonds.drop_last()[i] == bonds[i]);
        law_reached_complete(g, node_id, types, filter, outgoing, bonds.drop_last(), i, far);
        let k = choose|k: int| 0 <= k < prev.len() && prev[k] == n;
        assert(res[k] == prev[k]);
    } else {
        let b = bonds.last();
        assert(b == bonds[i]);
        assert(follows(b, node_id, types, outgoing));
        assert(far_end(b, outgoing) == far);
        if filter.len() > 0 {
            let j = choose|j: int| 0 <= j < n.labels.len() && filter.contains(#[trigger] n.labels[j]);
            assert(labels_meet(n.labels, filter));
        }
        assert(node_hits(n, filter) == seq![n]);
        assert(res[prev.len() as int] == n);
    }
}

/// What a reached node contributes: itself, once, exactly when the
/// node-label filter is empty or lists one of its labels, at any position.
pub proof fn law_node_hits(n: NodeView, filter: Seq<Seq<char>>)
    ensures
        node_hits(n, filter) == if filter.len() == 0 || exists|j: int|
            0 <= j < n.labels.len() && filter.contains(#[trigger] n.labels[j]) {
            seq![n]
        } else {
            Seq::<NodeView>::empty()
        },
{
}

/// Every bond that touches the asked node in a direction the query takes,
/// and passes both filters, brings the node at its far end into the answer
/// of `get_connected_nodes`.
pub proof fn law_connected_complete(
    g: GraphView,
    node_id: u128,
    types: Seq<Seq<char>>,
    filter: Seq<Seq<char>>,
    dir: BondDirection,
    outgoing: bool,
    i: int,
    far: u128,
)
    requires
        if outgoing { !(dir is Ingoing) } else { !(dir is Outgoing) },
        0 <= i < g.bonds.len(),
        (if outgoing { g.bonds[i].src } else { g.bonds[i].dst }) == node_id,
        far == (if outgoing { g.bonds[i].dst } else { g.bonds[i].src }),
        types.len() == 0 || types.contains(g.bonds[i].label),
        filter.len() == 0 || exists|j: int|
            0 <= j < g.nodes[g.node_index[far] as int].labels.len() && filter.contains(
                #[trigger] g.nodes[g.node_index[far] as int].labels[j],
            ),
    ensures
        g.connected(node_id, types, filter, dir).contains(g.nodes[g.node_index[far] as int]),
{
    let n = g.nodes[g.node_index[far] as int];
    law_reached_complete(g, node_id, types, filter, outgoing, g.bonds, i, far);
    let r = g.reached(node_id, types, filter, outgoing, g.bonds);
    let k = choose|k: int| 0 <= k < r.len() && r[k] == n;
    let c = g.connected(node_id, types, filter, dir);
    let out = if dir is Ingoing {
        Seq::empty()
    } else {
        g.reached(node_id, types, filter, true, g.bonds)
    };
    if outgoing {
        assert(c[1 + k] == n);
    } else {
        assert(c[1 + out.len() + k] == n);
    }
}

/// Without filters, following both directions answers the node itself and
/// one node per bond leaving it plus one per bond entering it (a loop on
/// the node counts twice).
pub proof fn law_connected_unfiltered_count(g: GraphView, node_id: u128, types: Seq<Seq<char>>)
    ensures
        g.connected(node_id, types, Seq::empty(), BondDirection::Both).len() == 1 + g.bonds.filter(
            |b: BondView| b.src == node_id && (types.len() == 0 || types.contains(b.label)),
        ).len() + g.bonds.filter(
            |b: BondView| b.dst == node_id && (types.len() == 0 || types.contains(b.label)),
        ).len(),
{
    law_reached_unfiltered_count(
        g,
        node_id,
        types,
        true,
        g.bonds,
        |b: BondView| b.src == node_id && (types.len() == 0 || types.contains(b.label)),
    );
    law_reached_unfiltered_count(
        g,
        node_id,
        types,
        false,
        g.bonds,
        |b: BondView| b.dst == node_id && (types.len() == 0 || types.contains(b.label)),
    );
}

/// `create_node`'s update: the node is appended unchanged after the stored
/// nodes, which stay as they were; nothing else changes.
pub proof fn law_with_node_appends(g: GraphView, n: NodeView)
    ensures
        ({
            let h = g.with_node(n);
            &&& h.nodes.len() == g.nodes.len() + 1
            &&& h.nodes[g.nodes.len() as int] == n
            &&& forall|i: int| 0 <= i < g.nodes.len() ==> #[trigger] h.nodes[i] == g.nodes[i]
            &&& h.bonds == g.bonds
            &&& h.node_index == g.node_index
            &&& h.bond_index == g.bond_index
            &&& h.name == g.name
        }),
{
}

/// `register_node`'s and `add_node`'s update: the node is appended unchanged
/// after the stored nodes and indexed under its id at its slot; the rest of
/// the index and everything else stays.
pub proof fn law_with_indexed_node_appends(g: GraphView, n: NodeView)
    requires
        g.nodes.len() <= usize::MAX,
    ensures
        ({
            let h = g.with_indexed_node(n);
            &&& h.nodes.len() == g.nodes.len() + 1
            &&& h.nodes[g.nodes.len() as int] == n
            &&& forall|i: int| 0 <= i < g.nodes.len() ==> #[trigger] h.nodes[i] == g.nodes[i]
            &&& h.node_index.contains_key(n.id)
            &&& h.node_index[n.id] == g.nodes.len()
            &&& forall|id: u128|
                id != n.id ==> (#[trigger] h.node_index.contains_key(id)
                    == g.node_index.contains_key(id) && (g.node_index.contains_key(id)
                    ==> h.node_index[id] == g.node_index[id]))
            &&& h.bonds == g.bonds
            &&& h.bond_index == g.bond_index
            &&& h.name == g.name
        }),
{
}

/// `create_bond`'s and `add_bond`'s update: the bond is appended unchanged
/// after the stored bonds, whatever its ends are; nothing else changes.
pub proof fn law_with_bond_appends(g: GraphView, b: BondView)
    ensures
        ({
            let h = g.with_bond(b);
            &&& h.bonds.len() == g.bonds.len() + 1
            &&& h.bonds[g.bonds.len() as int] == b
            &&& forall|i: int| 0 <= i < g.bonds.len() ==> #[trigger] h.bonds[i] == g.bonds[i]
            &&& h.nodes == g.nodes
            &&& h.node_index == g.node_index
            &&& h.bond_index == g.bond_index
            &&& h.name == g.name
        }),
{
}

/// A new graph holds its name and nothing else.
pub proof fn law_empty_graph_contents(name: Seq<char>)
    ensures
        GraphView::empty(name).name == name,
        GraphView::empty(name).nodes.len() == 0,
        GraphView::empty(name).bonds.len() == 0,
        forall|id: u128| !(#[trigger] GraphView::empty(name).node_index.contains_key(id)),
        forall|id: u128| !(#[trigger] GraphView::empty(name).bond_index.contains_key(id)),
{
}

/// `add_bond` refuses a bond exactly when an end is the nil id, when every
/// character of its label is white space (`trim()` leaves nothing), or when
/// no stored node carries one of its ends.
pub proof fn law_bond_rejected_exactly(g: GraphView, b: BondView)
    ensures
        bond_rejected(g, b) <==> {
            ||| b.src == 0
            ||| b.dst == 0
            ||| forall|k: int| 0 <= k < b.label.len() ==> is_white_space(#[trigger] b.label[k])
            ||| !exists|i: int| 0 <= i < g.nodes.len() && #[trigger] g.nodes[i].id == b.src
            ||| !exists|i: int| 0 <= i < g.nodes.len() && #[trigger] g.nodes[i].id == b.dst
        },
{
}

/// `add_node` refuses a node's labels exactly when there is none or every
/// character of the first label is white space; later labels do not matter.
pub proof fn law_labels_rejected_exactly(labels: Seq<Seq<char>>)
    ensures
        labels_rejected(labels) <==> (labels.len() == 0 || forall|k: int|
            0 <= k < labels[0].len() ==> is_white_space(#[trigger] labels[0][k])),
{
}

/// A new graph is closed: it has no node and no bond.
pub proof fn law_empty_graph_closed(name: Seq<char>)
    ensures
        GraphView::empty(name).closed(),
        GraphView::empty(name).wf(),
{
}

/// Appending nodes keeps every stored node stored.
proof fn lemma_more_nodes_keep_ends(g: GraphView, h: GraphView, b: BondView)
    requires
        g.ends_stored(b),
        h.nodes.len() >= g.nodes.len(),
        forall|j: int| 0 <= j < g.nodes.len() ==> h.nodes[j] == g.nodes[j],
    ensures
        h.ends_stored(b),
{
    let j = choose|j: int| 0 <= j < g.nodes.len() && #[trigger] g.nodes[j].id == b.src;
    let k = choose|k: int| 0 <= k < g.nodes.len() && #[trigger] g.nodes[k].id == b.dst;
    assert(h.nodes[j].id == b.src);
    assert(h.nodes[k].id == b.dst);
}

/// Adding a node under a fresh id, as `add_node` does, keeps a graph closed.
pub proof fn law_add_node_keeps_closed(g: GraphView, n: NodeView)
    requires
        g.closed(),
        !g.node_index.contains_key(n.id),
    ensures
        g.with_indexed_node(n).closed(),
{
    let h = g.with_indexed_node(n);
    assert forall|i: int| 0 <= i < h.nodes.len() implies h.node_index.contains_key(
        #[trigger] h.nodes[i].id,
    ) by {
        if i < g.nodes.len() {
            assert(h.nodes[i] == g.nodes[i]);
        }
    }
    assert forall|i: int| 0 <= i < h.bonds.len() implies h.ends_stored(#[trigger] h.bonds[i]) by {
        assert(h.bonds[i] == g.bonds[i]);
        lemma_more_nodes_keep_ends(g, h, g.bonds[i]);
    }
}

/// Adding a bond that `add_bond` accepts keeps a graph closed, whatever id
/// the bond is given.
pub proof fn law_add_bond_keeps_closed(g: GraphView, b: BondView)
    requires
        g.closed(),
        !bond_rejected(g, b),
    ensures
        g.with_bond(b).closed(),
{
    let h = g.with_bond(b);
    assert forall|i: int| 0 <= i < h.bonds.len() implies h.ends_stored(#[trigger] h.bonds[i]) by {
        if i < g.bonds.len() {
            assert(h.bonds[i] == g.bonds[i]);
            lemma_more_nodes_keep_ends(g, h, g.bonds[i]);
        } else {
            assert(h.bonds[i] == b);
            lemma_more_nodes_keep_ends(g, h, b);
        }
    }
}

/// In a closed graph every bond leads to indexed nodes, so
/// `get_connected_nodes` can be asked about any id, with any filter and in
/// any direction.
pub proof fn law_closed_graph_ends_indexed(
    g: GraphView,
    node_id: u128,
    types: Seq<Seq<char>>,
    dir: BondDirection,
)
    requires
        g.closed(),
    ensures
        g.far_ends_indexed(node_id, types, dir),
{
    assert forall|i: int| 0 <= i < g.bonds.len() implies g.node_index.contains_key(
        #[trigger] g.bonds[i].dst,
    ) && g.node_index.contains_key(g.bonds[i].src) by {
        let b = g.bonds[i];
        assert(g.ends_stored(b));
        let j = choose|j: int| 0 <= j < g.nodes.len() && #[trigger] g.nodes[j].id == b.src;
        let k = choose|k: int| 0 <= k < g.nodes.len() && #[trigger] g.nodes[k].id == b.dst;
    }
}

/// The nodes of `nodes` that carry `label`, in order.
pub open spec fn carrying(nodes: Seq<NodeView>, label: Seq<char>) -> Seq<NodeView> {
    nodes.filter(|n: NodeView| n.labels.contains(label))
}

/// For each label in turn, the nodes carrying it, one run after another.
pub open spec fn carrying_each(nodes: Seq<NodeView>, labels: Seq<Seq<char>>) -> Seq<NodeView>
    decreases labels.len(),
{
    if labels.len() == 0 {
        Seq::empty()
    } else {
        carrying_each(nodes, labels.drop_last()) + carrying(nodes, labels.last())
    }
}

/// `acc` followed by the nodes of `s` whose id is held neither by `acc` nor
/// by an earlier node of `s`: the first occurrence of each id is kept.
pub open spec fn dedup_onto(acc: Seq<NodeView>, s: Seq<NodeView>) -> Seq<NodeView>
    decreases s.len(),
{
    if s.len() == 0 {
        acc
    } else {
        let prev = dedup_onto(acc, s.drop_last());
        if node_ids(prev).contains(s.last().id) {
            prev
        } else {
            prev.push(s.last())
        }
    }
}

proof fn lemma_scan_is_dedup(nodes: Seq<NodeView>, label: Seq<char>, acc: Seq<NodeView>)
    ensures
        scan_label(nodes, label, acc) == dedup_onto(acc, carrying(nodes, label)),
    decreases nodes.len(),
{
    reveal_with_fuel(Seq::filter, 1);
    if nodes.len() > 0 {
        lemma_scan_is_dedup(nodes.drop_last(), label, acc);
        let c = carrying(nodes.drop_last(), label);
        if nodes.last().labels.contains(label) {
            assert(carrying(nodes, label) == c.push(nodes.last()));
            assert(c.push(nodes.last()).drop_last() =~= c);
        } else {
            assert(carrying(nodes, label) == c);
        }
    } else {
        assert(carrying(nodes, label) =~= Seq::<NodeView>::empty());
    }
}

proof fn lemma_dedup_concat(acc: Seq<NodeView>, s: Seq<NodeView>, t: Seq<NodeView>)
    ensures
        dedup_onto(dedup_onto(acc, s), t) == dedup_onto(acc, s + t),
    decreases t.len(),
{
    if t.len() == 0 {
        assert(s + t =~= s);
    } else {
        lemma_dedup_concat(acc, s, t.drop_last());
        assert((s + t).drop_last() =~= s + t.drop_last());
        assert((s + t).last() == t.last());
    }
}

/// `get_nodes_by_label_list` answers the runs of nodes carrying each listed
/// label, one run after another, keeping only the first node with each id.
pub proof fn law_select_by_labels_is_dedup(g: GraphView, labels: Seq<Seq<char>>)
    ensures
        g.select_by_labels(labels) == dedup_onto(Seq::empty(), carrying_each(g.nodes, labels)),
    decreases labels.len(),
{
    if labels.len() > 0 {
        law_select_by_labels_is_dedup(g, labels.drop_last());
        lemma_scan_is_dedup(g.nodes, labels.last(), g.select_by_labels(labels.drop_last()));
        lemma_dedup_concat(
            Seq::empty(),
            carrying_each(g.nodes, labels.drop_last()),
            carrying(g.nodes, labels.last()),
        );
    }
}

/// The texts of a list of strings are the strings' texts, one for one.
pub proof fn law_texts_one_for_one(v: Seq<String>)
    ensures
        crate::text::texts(v).len() == v.len(),
        forall|i: int| 0 <= i < v.len() ==> #[trigger] crate::text::texts(v)[i] == v[i]@,
{
}

/// The ids of a sequence of nodes are the nodes' ids, one for one.
pub proof fn law_node_ids_one_for_one(v: Seq<NodeView>)
    ensures
        node_ids(v).len() == v.len(),
        forall|i: int| 0 <= i < v.len() ==> #[trigger] node_ids(v)[i] == v[i].id,
{
}

/// The values of a list of node references are the referenced nodes'
/// values, one for one.
pub proof fn law_node_refs_one_for_one(v: Seq<&Node>)
    ensures
        node_refs(v).len() == v.len(),
        forall|i: int| 0 <= i < v.len() ==> #[trigger] node_refs(v)[i] == v[i]@,
{
}

} // verus!
