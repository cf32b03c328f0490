//! The graph model: per-node metadata as parsed from the description file,
//! edges as index pairs, and the well-formedness facts that the parser
//! establishes (unique names, valid and distinct edges, exact degrees).

use vstd::prelude::*;

verus! {

/// Colour taken from the input's hex string. Only the red and blue channels
/// are read from the six hex digits; green is fixed at zero, which is the
/// convention of this description format.
#[derive(Clone, Copy, Debug, PartialEq, Eq, Structural)]
pub struct Rgb {
    pub r: u8,
    pub g: u8,
    pub b: u8,
}

/// A decimal number kept exactly as written: its value is
/// `mantissa / 10^frac_digits`. Radius and local fractal dimension are
/// carried this way so that no precision is invented or lost.
#[derive(Clone, Copy, Debug, PartialEq, Eq, Structural)]
pub struct Decimal {
    pub mantissa: i64,
    pub frac_digits: u32,
}

/// Metadata of one node, immutable once the whole description is parsed;
/// only `degree` moves while edges are being read.
#[derive(Clone, Debug, PartialEq)]
pub struct NodeData {
    pub name: Vec<u8>,
    pub cardinality: i64,
    pub radius: Decimal,
    pub lfd: Decimal,
    pub color: Rgb,
    pub degree: u32,
}

/// Mathematical image of `NodeData`, with the name as a byte sequence.
pub struct NodeDataView {
    pub name: Seq<u8>,
    pub cardinality: i64,
    pub radius: Decimal,
    pub lfd: Decimal,
    pub color: Rgb,
    pub degree: u32,
}

impl DeepView for NodeData {
    type V = NodeDataView;

    open spec fn deep_view(&self) -> NodeDataView {
        NodeDataView {
            name: self.name@,
            cardinality: self.cardinality,
            radius: self.radius,
            lfd: self.lfd,
            color: self.color,
            degree: self.degree,
        }
    }
}

/// One edge, as indices into the node list, kept in parse order. A directed
/// and an undirected line both yield the pair (source, target); the pair in
/// parse order is the edge's identity, so the same pair reversed is a
/// distinct edge, as the format's keying has it.
#[derive(Clone, Copy, Debug, PartialEq, Eq, Structural)]
pub struct EdgeRec {
    pub a: usize,
    pub b: usize,
}

/// The errors a graph description can provoke. Every variant carries the
/// number of the offending line and enough of its content for a diagnostic.
#[derive(Clone, Debug, PartialEq)]
pub enum GraphError {
    /// A node line whose bracket or label structure is broken, or whose
    /// numeric field does not parse.
    MalformedNodeLine { line_no: usize, line: Vec<u8> },
    /// An edge line whose endpoint extraction fails.
    MalformedEdgeLine { line_no: usize, line: Vec<u8> },
    /// An edge line naming a node that was never declared.
    UnknownNodeReference { line_no: usize, name: Vec<u8> },
    /// A colour attribute that is missing, too short, or not hex.
    InvalidColorFormat { line_no: usize, line: Vec<u8> },
}

/// Kind of a parse error, at the spec level.
#[derive(Clone, Copy, Debug, PartialEq, Eq, Structural)]
pub enum ErrKind {
    BadNodeLine,
    BadEdgeLine,
    UnknownNode,
    BadColor,
}

/// Mathematical image of `GraphError`.
pub struct ErrView {
    pub kind: ErrKind,
    pub line_no: int,
    pub data: Seq<u8>,
}

impl DeepView for GraphError {
    type V = ErrView;

    open spec fn deep_view(&self) -> ErrView {
        match self {
            GraphError::MalformedNodeLine { line_no, line } => ErrView {
                kind: ErrKind::BadNodeLine,
                line_no: *line_no as int,
                data: line@,
            },
            GraphError::MalformedEdgeLine { line_no, line } => ErrView {
                kind: ErrKind::BadEdgeLine,
                line_no: *line_no as int,
                data: line@,
            },
            GraphError::UnknownNodeReference { line_no, name } => ErrView {
                kind: ErrKind::UnknownNode,
                line_no: *line_no as int,
                data: name@,
            },
            GraphError::InvalidColorFormat { line_no, line } => ErrView {
                kind: ErrKind::BadColor,
                line_no: *line_no as int,
                data: line@,
            },
        }
    }
}

/// Number of endpoints of edges in `edges` that are node `i`; a self-loop
/// counts twice, exactly as each edge line bumps both of its endpoints.
pub open spec fn degree_of(edges: Seq<EdgeRec>, i: int) -> int
    decreases edges.len()
{
    if edges.len() == 0 {
        0
    } else {
        degree_of(edges.drop_last(), i) + (if edges.last().a as int == i {
            1int
        } else {
            0int
        }) + (if edges.last().b as int == i {
            1int
        } else {
            0int
        })
    }
}

/// Appending one edge raises the degree of each of its endpoints by one
/// (by two for a self-loop) and no other node's degree.
pub proof fn lemma_degree_of_push(edges: Seq<EdgeRec>, e: EdgeRec, i: int)
    ensures
        degree_of(edges.push(e), i) == degree_of(edges, i) + (if e.a as int == i {
            1int
        } else {
            0int
        }) + (if e.b as int == i {
            1int
        } else {
            0int
        }),
{
    assert(edges.push(e).drop_last() =~= edges);
    assert(edges.push(e).last() == e);
}

/// A degree never exceeds twice the number of edges.
pub proof fn lemma_degree_of_le(edges: Seq<EdgeRec>, i: int)
    ensures
        0 <= degree_of(edges, i) <= 2 * edges.len(),
    decreases edges.len()
{
    if edges.len() > 0 {
        lemma_degree_of_le(edges.drop_last(), i);
    }
}

/// A node no edge touches has degree zero.
pub proof fn lemma_degree_of_absent(edges: Seq<EdgeRec>, i: int)
    requires
        forall|k: int|
            0 <= k < edges.len() ==> (#[trigger] edges[k]).a as int != i && edges[k].b as int != i,
    ensures
        degree_of(edges, i) == 0,
    decreases edges.len()
{
    if edges.len() > 0 {
        assert(forall|k: int|
            0 <= k < edges.drop_last().len() ==> #[trigger] edges.drop_last()[k] == edges[k]);
        lemma_degree_of_absent(edges.drop_last(), i);
    }
}

/// All node names are distinct.
pub open spec fn names_unique(nodes: Seq<NodeDataView>) -> bool {
    forall|i: int, j: int|
        0 <= i < j < nodes.len() ==> #[trigger] nodes[i].name != #[trigger] nodes[j].name
}

/// Every edge endpoint is a valid node index.
pub open spec fn edges_in_range(nodes_len: int, edges: Seq<EdgeRec>) -> bool {
    forall|k: int|
        0 <= k < edges.len() ==> (#[trigger] edges[k]).a < nodes_len && edges[k].b < nodes_len
}

/// No two edges are the same ordered endpoint pair.
pub open spec fn edges_unique(edges: Seq<EdgeRec>) -> bool {
    forall|k: int, l: int| 0 <= k < l < edges.len() ==> #[trigger] edges[k] != #[trigger] edges[l]
}

/// Every node's recorded degree equals its count of edge endpoints.
pub open spec fn degrees_ok(nodes: Seq<NodeDataView>, edges: Seq<EdgeRec>) -> bool {
    forall|i: int|
        0 <= i < nodes.len() ==> (#[trigger] nodes[i]).degree as int == degree_of(edges, i)
}

/// The parsed graph: nodes in the order their lines appeared, and edges in
/// the order their lines appeared, resolved to node indices.
pub struct ParsedGraph {
    pub nodes: Vec<NodeData>,
    pub edges: Vec<EdgeRec>,
}

impl ParsedGraph {
    /// Everything the parser promises of its output.
    pub open spec fn wf(self) -> bool {
        &&& names_unique(self.nodes.deep_view())
        &&& edges_in_range(self.nodes@.len() as int, self.edges@)
        &&& edges_unique(self.edges@)
        &&& degrees_ok(self.nodes.deep_view(), self.edges@)
    }

    /// Number of nodes with no incident edge.
    pub open spec fn disconnected_count(self) -> int {
        count_disconnected(self.nodes.deep_view())
    }
}

/// Number of nodes in `nodes` whose degree is zero.
pub open spec fn count_disconnected(nodes: Seq<NodeDataView>) -> int
    decreases nodes.len()
{
    if nodes.len() == 0 {
        0
    } else {
        count_disconnected(nodes.drop_last()) + (if nodes.last().degree == 0 {
            1int
        } else {
            0int
        })
    }
}

/// Number of nodes in `nodes` whose degree is positive.
pub open spec fn count_connected(nodes: Seq<NodeDataView>) -> int
    decreases nodes.len()
{
    if nodes.len() == 0 {
        0
    } else {
        count_connected(nodes.drop_last()) + (if nodes.last().degree > 0 {
            1int
        } else {
            0int
        })
    }
}

/// The node total is always the disconnected count plus the connected
/// count, and the connected count is the number of nodes whose degree is
/// positive.
pub proof fn lemma_node_counts(nodes: Seq<NodeDataView>)
    ensures
        count_disconnected(nodes) + count_connected(nodes) == nodes.len(),
        0 <= count_connected(nodes) <= nodes.len(),
        0 <= count_disconnected(nodes) <= nodes.len(),
    decreases nodes.len()
{
    if nodes.len() > 0 {
        lemma_node_counts(nodes.drop_last());
    }
}

/// The count of degree-zero nodes never exceeds the node count, so the
/// connected count `total - disconnected` is never negative.
pub proof fn lemma_count_disconnected_bounds(nodes: Seq<NodeDataView>)
    ensures
        0 <= count_disconnected(nodes) <= nodes.len(),
    decreases nodes.len()
{
    if nodes.len() > 0 {
        lemma_count_disconnected_bounds(nodes.drop_last());
    }
}

} // verus!
