//! Pipelines: a graph of operation nodes joined by edges that name them.
use vstd::prelude::*;

verus! {

/// One operation of a pipeline. `config` holds the JSON text of its settings.
#[derive(Debug, Clone)]
pub struct Node {
    pub id: String,
    pub operation: String,
    pub config: String,
}

/// A dependency: the node named `from` runs before the node named `to`.
#[derive(Debug, Clone)]
pub struct Edge {
    pub from: String,
    pub to: String,
}

/// A pipeline: its nodes and the edges between them.
#[derive(Debug, Clone)]
pub struct Pipeline {
    pub nodes: Vec<Node>,
    pub edges: Vec<Edge>,
}

/// The ids of the nodes, in order.
pub open spec fn node_ids(p: Pipeline) -> Seq<Seq<char>> {
    p.nodes@.map_values(|n: Node| n.id@)
}

/// Every edge names nodes of the pipeline at both ends.
pub open spec fn edges_name_nodes(p: Pipeline) -> bool {
    forall|e: int|
        0 <= e < p.edges@.len() ==> node_ids(p).contains(#[trigger] p.edges@[e].from@)
            && node_ids(p).contains(p.edges@[e].to@)
}

/// `order` lists every node once, each before the nodes its edges lead to.
pub open spec fn is_topological_order(p: Pipeline, order: Seq<Seq<char>>) -> bool {
    &&& order.len() == p.nodes@.len()
    &&& order.no_duplicates()
    &&& forall|i: int| 0 <= i < order.len() ==> node_ids(p).contains(#[trigger] order[i])
    &&& forall|e: int, a: int, b: int|
        #![trigger order[a], order[b], p.edges@[e]]
        0 <= e < p.edges@.len() && 0 <= a < order.len() && 0 <= b < order.len() && order[a]
            == p.edges@[e].from@ && order[b] == p.edges@[e].to@ ==> a < b
}

/// The views of a sequence of strings.
pub open spec fn string_views(s: Seq<String>) -> Seq<Seq<char>> {
    s.map_values(|x: String| x@)
}

} // verus!
