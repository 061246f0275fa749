//! Flows (nodes and edges), execution results, and the graph lookups that the
//! scheduler and the node handlers make.

use vstd::prelude::*;
use crate::json::{Json, JVal, jget};
use crate::json::text_eq;

verus! {

/// One typed unit of work. Its configuration `data` is read by the handler of its type.
#[derive(Debug)]
pub struct Node {
    pub id: String,
    pub node_type: String,
    pub data: Json,
}

/// A directed connection; `source_handle` selects the branch it belongs to.
#[derive(Debug)]
pub struct Edge {
    pub id: String,
    pub source: String,
    pub target: String,
    pub source_handle: Option<String>,
    pub target_handle: Option<String>,
    pub animated: bool,
    pub style: Option<Json>,
}

/// Nodes and edges of one workflow.
#[derive(Debug)]
pub struct Flow {
    pub nodes: Vec<Node>,
    pub edges: Vec<Edge>,
}

#[derive(Debug, Clone, Copy, PartialEq, Eq, Structural)]
pub enum Status {
    Success,
    Error,
    Skipped,
    Completed,
}

/// What one execution of a node produced.
#[derive(Debug)]
pub struct ExecutionResult {
    pub node_id: String,
    pub status: Status,
    pub output: Json,
    pub error: Option<String>,
    pub active_handle: Option<String>,
}

pub struct NodeV {
    pub id: Seq<char>,
    pub kind: Seq<char>,
    pub data: JVal,
}

pub struct EdgeV {
    pub source: Seq<char>,
    pub target: Seq<char>,
    pub handle: Option<Seq<char>>,
}

pub struct FlowV {
    pub nodes: Seq<NodeV>,
    pub edges: Seq<EdgeV>,
}

pub struct ResultV {
    pub id: Seq<char>,
    pub status: Status,
    pub output: JVal,
    pub error: Option<Seq<char>>,
    pub handle: Option<Seq<char>>,
}

pub open spec fn opt_view(o: Option<String>) -> Option<Seq<char>> {
    match o {
        Some(s) => Some(s@),
        None => None,
    }
}

impl View for Node {
    type V = NodeV;

    open spec fn view(&self) -> NodeV {
        NodeV { id: self.id@, kind: self.node_type@, data: self.data@ }
    }
}

impl View for Edge {
    type V = EdgeV;

    open spec fn view(&self) -> EdgeV {
        EdgeV { source: self.source@, target: self.target@, handle: opt_view(self.source_handle) }
    }
}

impl View for Flow {
    type V = FlowV;

    open spec fn view(&self) -> FlowV {
        FlowV {
            nodes: Seq::new(self.nodes.len() as nat, |i: int| self.nodes[i]@),
            edges: Seq::new(self.edges.len() as nat, |i: int| self.edges[i]@),
        }
    }
}

impl View for ExecutionResult {
    type V = ResultV;

    open spec fn view(&self) -> ResultV {
        ResultV {
            id: self.node_id@,
            status: self.status,
            output: self.output@,
            error: opt_view(self.error),
            handle: opt_view(self.active_handle),
        }
    }
}

pub open spec fn results_view(rs: Seq<(String, ExecutionResult)>) -> Seq<(Seq<char>, ResultV)> {
    Seq::new(rs.len(), |i: int| (rs[i].0@, rs[i].1@))
}

/// Sources of the edges that end at `id`, in edge order.
pub open spec fn parents(edges: Seq<EdgeV>, id: Seq<char>) -> Seq<Seq<char>>
    decreases edges.len(),
{
    if edges.len() == 0 {
        Seq::empty()
    } else {
        parents(edges.drop_last(), id) + if edges.last().target == id {
            seq![edges.last().source]
        } else {
            Seq::empty()
        }
    }
}

/// The edges that start at `id`, in edge order.
pub open spec fn outgoing(edges: Seq<EdgeV>, id: Seq<char>) -> Seq<EdgeV>
    decreases edges.len(),
{
    if edges.len() == 0 {
        Seq::empty()
    } else {
        outgoing(edges.drop_last(), id) + if edges.last().source == id {
            seq![edges.last()]
        } else {
            Seq::empty()
        }
    }
}

/// The node that the id names: the last one listed with it.
pub open spec fn node_of(nodes: Seq<NodeV>, id: Seq<char>) -> Option<NodeV>
    decreases nodes.len(),
{
    if nodes.len() == 0 {
        None
    } else if nodes.last().id == id {
        Some(nodes.last())
    } else {
        node_of(nodes.drop_last(), id)
    }
}

/// The stored result for `id`.
pub open spec fn result_of(rs: Seq<(Seq<char>, ResultV)>, id: Seq<char>) -> Option<ResultV>
    decreases rs.len(),
{
    if rs.len() == 0 {
        None
    } else if rs[0].0 == id {
        Some(rs[0].1)
    } else {
        result_of(rs.drop_first(), id)
    }
}

/// Results with the one for `id` replaced, or added at the end.
pub open spec fn put_result(rs: Seq<(Seq<char>, ResultV)>, id: Seq<char>, r: ResultV) -> Seq<
    (Seq<char>, ResultV),
>
    decreases rs.len(),
{
    if rs.len() == 0 {
        seq![(id, r)]
    } else if rs[0].0 == id {
        rs.update(0, (id, r))
    } else {
        seq![rs[0]] + put_result(rs.drop_first(), id, r)
    }
}

/// A result's payload: its `data` member, else the whole output.
pub open spec fn data_or_all(o: JVal) -> JVal {
    match jget(o, "data"@) {
        Some(d) => d,
        None => o,
    }
}

/// The primary input of node `id`: the payload of its first predecessor's result.
pub open spec fn primary(f: FlowV, rs: Seq<(Seq<char>, ResultV)>, id: Seq<char>) -> Option<JVal> {
    let ps = parents(f.edges, id);
    if ps.len() == 0 {
        None
    } else {
        match result_of(rs, ps[0]) {
            Some(r) => Some(data_or_all(r.output)),
            None => None,
        }
    }
}

pub open spec fn primary_or_null(f: FlowV, rs: Seq<(Seq<char>, ResultV)>, id: Seq<char>) -> JVal {
    match primary(f, rs, id) {
        Some(v) => v,
        None => JVal::Null,
    }
}

/// Sources of the edges that end at `id`.
pub fn parents_exec(f: &Flow, id: &str) -> (r: Vec<String>)
    ensures
        r@.len() == parents(f@.edges, id@).len(),
        forall|i: int| 0 <= i < r.len() ==> (#[trigger] r@[i])@ == parents(f@.edges, id@)[i],
{
    let ghost ev = f@.edges;
    let mut r: Vec<String> = Vec::new();
    let mut i: usize = 0;
    while i < f.edges.len()
        invariant
            i <= f.edges.len(),
            ev == f@.edges,
            ev.len() == f.edges.len(),
            r@.len() == parents(ev.take(i as int), id@).len(),
            forall|k: int| 0 <= k < r.len() ==> (#[trigger] r@[k])@ == parents(ev.take(i as int), id@)[k],
        decreases f.edges.len() - i,
    {
        proof {
            assert(ev.take(i + 1).drop_last() =~= ev.take(i as int));
            assert(ev[i as int] == f.edges@[i as int]@);
        }
        if text_eq(f.edges[i].target.as_str(), id) {
            r.push(f.edges[i].source.clone());
        }
        i = i + 1;
    }
    assert(ev.take(f.edges.len() as int) =~= ev);
    r
}

/// Index of the first edge that ends at `id`, the node's first predecessor.
pub fn first_parent(f: &Flow, id: &str) -> (r: Option<usize>)
    ensures
        r.is_none() == (parents(f@.edges, id@).len() == 0),
        r.is_some() ==> r.unwrap() < f.edges.len() && f.edges@[r.unwrap() as int].source@ == parents(
            f@.edges,
            id@,
        )[0],
{
    let ghost ev = f@.edges;
    let mut i: usize = 0;
    while i < f.edges.len()
        invariant
            i <= f.edges.len(),
            ev == f@.edges,
            ev.len() == f.edges.len(),
            parents(ev.take(i as int), id@).len() == 0,
        decreases f.edges.len() - i,
    {
        proof {
            assert(ev.take(i + 1).drop_last() =~= ev.take(i as int));
            assert(ev[i as int] == f.edges@[i as int]@);
        }
        if text_eq(f.edges[i].target.as_str(), id) {
            proof {
                lemma_parents_prefix(ev, id@, i + 1);
                assert(parents(ev.take(i + 1), id@) =~= seq![ev[i as int].source]);
            }
            return Some(i);
        }
        i = i + 1;
    }
    assert(ev.take(f.edges.len() as int) =~= ev);
    None
}

/// The parents of a prefix are a prefix of the parents.
proof fn lemma_parents_prefix(edges: Seq<EdgeV>, id: Seq<char>, n: int)
    requires
        0 <= n <= edges.len(),
    ensures
        parents(edges.take(n), id).len() <= parents(edges, id).len(),
        forall|k: int|
            0 <= k < parents(edges.take(n), id).len() ==> parents(edges.take(n), id)[k] == parents(
                edges,
                id,
            )[k],
    decreases edges.len() - n,
{
    if n < edges.len() {
        lemma_parents_prefix(edges, id, n + 1);
        assert(edges.take(n + 1).drop_last() =~= edges.take(n));
    } else {
        assert(edges.take(n) =~= edges);
    }
}

/// Index of the node that `id` names, the last one listed with it.
pub fn find_node(f: &Flow, id: &str) -> (r: Option<usize>)
    ensures
        r.is_none() == node_of(f@.nodes, id@).is_none(),
        r.is_some() ==> r.unwrap() < f.nodes.len() && node_of(f@.nodes, id@) == Some(
            f.nodes@[r.unwrap() as int]@,
        ),
{
    let ghost nv = f@.nodes;
    let mut i: usize = f.nodes.len();
    assert(nv.take(i as int) =~= nv);
    while i > 0
        invariant
            i <= f.nodes.len(),
            nv == f@.nodes,
            nv.len() == f.nodes.len(),
            node_of(nv, id@) == node_of(nv.take(i as int), id@),
        decreases i,
    {
        proof {
            assert(nv.take(i as int).drop_last() =~= nv.take(i - 1));
            assert(nv.take(i as int).last() == f.nodes@[i - 1]@);
        }
        if text_eq(f.nodes[i - 1].id.as_str(), id) {
            return Some(i - 1);
        }
        i = i - 1;
    }
    None
}

} // verus!
