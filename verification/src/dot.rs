//! The proof tree as a graph in the DOT language.

use crate::engine::{EdgeModel, NodeModel, TableauModel};
use crate::knowledge::FactModel;
use crate::text::{decimal, join};
use vstd::prelude::*;

verus! {

/// `true` or `false`.
pub open spec fn truth_text(b: bool) -> Seq<char> {
    if b {
        "true"@
    } else {
        "false"@
    }
}

/// One fact of a label: its number counted from 1 in square brackets,
/// the formula, a colon and the sign.
pub open spec fn fact_label(fact: FactModel) -> Seq<char> {
    "["@ + decimal(fact.id + 1) + "] "@ + fact.formula.pretty() + ": "@ + truth_text(fact.expect)
}

/// The labels of the facts at the places below `count`.
pub open spec fn fact_labels(facts: Seq<FactModel>, count: int) -> Seq<Seq<char>> {
    Seq::new(count as nat, |i: int| fact_label(facts[i]))
}

/// The label of a node: its facts, separated by a backslash and `n`;
/// for a closed node a backslash and `nx` after them.
pub open spec fn node_label(node: NodeModel) -> Seq<char> {
    join(fact_labels(node.facts, node.facts.len() as int), "\\n"@) + if node.closed {
        "\\nx"@
    } else {
        ""@
    }
}

/// The line of a node: its index and its label.
pub open spec fn node_line(index: nat, node: NodeModel) -> Seq<char> {
    decimal(index) + " [label=\""@ + node_label(node) + "\"];"@
}

/// The line of an edge: the indices of its two nodes, and as label the
/// number of its fact counted from 1.
pub open spec fn edge_line(edge: EdgeModel) -> Seq<char> {
    decimal(edge.from) + " -> "@ + decimal(edge.to) + " [label=\""@ + decimal(edge.fact + 1)
        + "\"];"@
}

/// The lines of the nodes at the places below `count`.
pub open spec fn node_lines(nodes: Seq<NodeModel>, count: int) -> Seq<Seq<char>> {
    Seq::new(count as nat, |i: int| node_line(i as nat, nodes[i]))
}

/// The lines of the edges at the places below `count`.
pub open spec fn edge_lines(edges: Seq<EdgeModel>, count: int) -> Seq<Seq<char>> {
    Seq::new(count as nat, |i: int| edge_line(edges[i]))
}

/// The whole graph: the lines of the nodes, an empty line, the lines of
/// the edges, inside `digraph A { }`; each line after a tab.
pub open spec fn dot_text(t: TableauModel) -> Seq<char> {
    "digraph A {\n\t"@ + join(node_lines(t.nodes, t.nodes.len() as int), "\n\t"@) + "\n\n\t"@
        + join(edge_lines(t.edges, t.edges.len() as int), "\n\t"@) + "\t\n}"@
}

} // verus!
