//! The node behaviour library: one handler per node type. Each computes a result
//! from the node's configuration, earlier results, the graph and the variable store.

use vstd::prelude::*;
use crate::json::{
    Json,
    JVal,
    jget,
    jobj,
    jstr,
    mem,
    member,
    member_exec,
    insert_member,
    insert_member_exec,
    members_view,
    text_eq,
};
use crate::graph::{
    Node,
    Flow,
    ExecutionResult,
    Status,
    NodeV,
    FlowV,
    ResultV,
    results_view,
    result_of,
    parents,
    primary,
    primary_or_null,
    data_or_all,
    first_parent,
    parents_exec,
};
use crate::number::num_text;

verus! {

pub type Results = Vec<(String, ExecutionResult)>;

/// A text member of the configuration, or `d` when it is absent or not text.
pub open spec fn str_or(v: JVal, k: Seq<char>, d: Seq<char>) -> Seq<char> {
    match jget(v, k) {
        Some(JVal::Str(s)) => s,
        _ => d,
    }
}

pub fn str_field(data: &Json, key: &str, default: &str) -> (r: String)
    ensures
        r@ == str_or(data@, key@, default@),
{
    match data.get(key) {
        Some(Json::Str(s)) => s.clone(),
        _ => String::from_str(default),
    }
}

pub open spec fn ok_result(id: Seq<char>, out: JVal) -> ResultV {
    ResultV { id, status: Status::Success, output: out, error: None, handle: None }
}

pub fn ok_exec(id: &String, out: Json) -> (r: ExecutionResult)
    ensures
        r@ == ok_result(id@, out@),
{
    ExecutionResult {
        node_id: id.clone(),
        status: Status::Success,
        output: out,
        error: None,
        active_handle: None,
    }
}

proof fn lemma_result_skip(rs: Seq<(Seq<char>, ResultV)>, id: Seq<char>, i: int)
    requires
        0 <= i <= rs.len(),
        forall|j: int| 0 <= j < i ==> rs[j].0 != id,
    ensures
        result_of(rs, id) == result_of(rs.skip(i), id),
    decreases i,
{
    if i == 0 {
        assert(rs.skip(0) =~= rs);
    } else {
        lemma_result_skip(rs.drop_first(), id, i - 1);
        assert(rs.drop_first().skip(i - 1) =~= rs.skip(i));
    }
}

/// The stored result for `id`.
pub fn result_lookup<'a>(rs: &'a Results, id: &str) -> (r: Option<&'a ExecutionResult>)
    ensures
        r.is_some() == result_of(results_view(rs@), id@).is_some(),
        r.is_some() ==> r.unwrap()@ == result_of(results_view(rs@), id@).unwrap(),
{
    let ghost rv = results_view(rs@);
    let mut i: usize = 0;
    while i < rs.len()
        invariant
            i <= rs.len(),
            rv == results_view(rs@),
            forall|j: int| 0 <= j < i ==> rv[j].0 != id@,
        decreases rs.len() - i,
    {
        if text_eq(rs[i].0.as_str(), id) {
            proof {
                lemma_result_skip(rv, id@, i as int);
                assert(rv.skip(i as int)[0] == rv[i as int]);
            }
            return Some(&rs[i].1);
        }
        i = i + 1;
    }
    proof {
        lemma_result_skip(rv, id@, i as int);
    }
    None
}

pub fn data_or_all_exec(o: &Json) -> (r: Json)
    ensures
        r@ == data_or_all(o@),
{
    match o.get("data") {
        Some(d) => d.copy(),
        None => o.copy(),
    }
}

pub open spec fn opt_jview(o: Option<Json>) -> Option<JVal> {
    match o {
        Some(j) => Some(j@),
        None => None,
    }
}

/// The primary input of node `id`.
pub fn primary_exec(f: &Flow, rs: &Results, id: &str) -> (r: Option<Json>)
    ensures
        opt_jview(r) == primary(f@, results_view(rs@), id@),
{
    match first_parent(f, id) {
        None => None,
        Some(e) => match result_lookup(rs, f.edges[e].source.as_str()) {
            None => None,
            Some(res) => Some(data_or_all_exec(&res.output)),
        },
    }
}

pub fn primary_or_null_exec(f: &Flow, rs: &Results, id: &str) -> (r: Json)
    ensures
        r@ == primary_or_null(f@, results_view(rs@), id@),
{
    match primary_exec(f, rs, id) {
        Some(v) => v,
        None => Json::Null,
    }
}

// ---------------------------------------------------------------- passthrough

/// Echoes the primary input: `{data, status: "ok"}`.
pub open spec fn passthrough_spec(n: NodeV, f: FlowV, rs: Seq<(Seq<char>, ResultV)>) -> ResultV {
    ok_result(
        n.id,
        JVal::Obj(seq![("data"@, primary_or_null(f, rs, n.id)), ("status"@, JVal::Str("ok"@))]),
    )
}

pub fn run_passthrough(n: &Node, f: &Flow, rs: &Results) -> (r: ExecutionResult)
    ensures
        r@ == passthrough_spec(n@, f@, results_view(rs@)),
{
    let input = primary_or_null_exec(f, rs, n.id.as_str());
    let ghost iv = input@;
    let m = vec![mem("data", input), mem("status", jstr("ok"))];
    assert(members_view(m@) =~= seq![("data"@, iv), ("status"@, JVal::Str("ok"@))]);
    ok_exec(&n.id, jobj(m))
}

// ---------------------------------------------------------------- mapper

/// The lookup key of a mapper input: a number's text, a string itself, else empty.
pub open spec fn mapper_key(v: JVal) -> Seq<char> {
    match v {
        JVal::Num(u) => num_text(u),
        JVal::Str(s) => s,
        _ => Seq::empty(),
    }
}

pub open spec fn mapper_value(data: JVal, input: JVal) -> JVal {
    let fallback = match jget(data, "fallback"@) {
        Some(x) => x,
        None => JVal::Str("Unknown"@),
    };
    match jget(data, "mapping"@) {
        Some(JVal::Obj(m)) => match member(m, mapper_key(input)) {
            Some(x) => x,
            None => fallback,
        },
        _ => fallback,
    }
}

pub open spec fn mapper_spec(n: NodeV, f: FlowV, rs: Seq<(Seq<char>, ResultV)>) -> ResultV {
    ok_result(n.id, JVal::Obj(seq![("data"@, mapper_value(n.data, primary_or_null(f, rs, n.id)))]))
}

/// A mapper node: looks its primary input up in the configured mapping, with a
/// fallback (`"Unknown"` unless configured).
pub fn run_mapper(n: &Node, f: &Flow, rs: &Results) -> (r: ExecutionResult)
    ensures
        r@ == mapper_spec(n@, f@, results_view(rs@)),
{
    let input = primary_or_null_exec(f, rs, n.id.as_str());
    let key: String = match &input {
        Json::Number(x) => x.to_text(),
        Json::Str(s) => s.clone(),
        _ => String::new(),
    };
    let fallback = match n.data.get("fallback") {
        Some(x) => x.copy(),
        None => jstr("Unknown"),
    };
    let v = match n.data.get("mapping") {
        Some(Json::Object(m)) => {
            proof {
                crate::json::lemma_object_view(*m);
            }
            match member_exec(m, key.as_str()) {
                Some(x) => x.copy(),
                None => fallback,
            }
        },
        _ => fallback,
    };
    let ghost vv = v@;
    let m = vec![mem("data", v)];
    assert(members_view(m@) =~= seq![("data"@, vv)]);
    ok_exec(&n.id, jobj(m))
}

// ---------------------------------------------------------------- debug

/// Each predecessor's output under its id, for the predecessors that have a result.
pub open spec fn debug_members(ps: Seq<Seq<char>>, rs: Seq<(Seq<char>, ResultV)>) -> Seq<(Seq<char>, JVal)>
    decreases ps.len(),
{
    if ps.len() == 0 {
        Seq::empty()
    } else {
        let prev = debug_members(ps.drop_last(), rs);
        match result_of(rs, ps.last()) {
            Some(r) => insert_member(prev, ps.last(), r.output),
            None => prev,
        }
    }
}

pub open spec fn debug_spec(n: NodeV, f: FlowV, rs: Seq<(Seq<char>, ResultV)>) -> ResultV {
    ok_result(
        n.id,
        JVal::Obj(
            seq![
                ("debug"@, JVal::Obj(debug_members(parents(f.edges, n.id), rs))),
                ("message"@, JVal::Str("Debug info captured"@)),
            ],
        ),
    )
}

/// A debug node: collects the output of every predecessor, keyed by its id.
pub fn run_debug(n: &Node, f: &Flow, rs: &Results) -> (r: ExecutionResult)
    ensures
        r@ == debug_spec(n@, f@, results_view(rs@)),
{
    let ps = parents_exec(f, n.id.as_str());
    let ghost pv = parents(f@.edges, n@.id);
    let mut acc: Vec<(String, Json)> = Vec::new();
    let mut i: usize = 0;
    assert(members_view(acc@) =~= debug_members(pv.take(0), results_view(rs@)));
    while i < ps.len()
        invariant
            i <= ps.len(),
            pv == parents(f@.edges, n@.id),
            ps@.len() == pv.len(),
            forall|k: int| 0 <= k < ps.len() ==> (#[trigger] ps@[k])@ == pv[k],
            members_view(acc@) == debug_members(pv.take(i as int), results_view(rs@)),
        decreases ps.len() - i,
    {
        proof {
            assert(pv.take(i + 1).drop_last() =~= pv.take(i as int));
            assert(pv.take(i + 1).last() == ps@[i as int]@);
        }
        match result_lookup(rs, ps[i].as_str()) {
            Some(res) => {
                insert_member_exec(&mut acc, ps[i].clone(), res.output.copy());
            },
            None => {},
        }
        i = i + 1;
    }
    assert(pv.take(ps.len() as int) =~= pv);
    let d = jobj(acc);
    let ghost dv = d@;
    let m = vec![mem("debug", d), mem("message", jstr("Debug info captured"))];
    assert(members_view(m@) =~= seq![("debug"@, dv), ("message"@, JVal::Str("Debug info captured"@))]);
    ok_exec(&n.id, jobj(m))
}

// ---------------------------------------------------------------- terminals and unknown types

pub open spec fn case_success_spec(n: NodeV) -> ResultV {
    ok_result(n.id, JVal::Obj(seq![("status"@, JVal::Str("completed"@))]))
}

/// A success terminal: `{status: "completed"}`.
pub fn run_case_success(n: &Node) -> (r: ExecutionResult)
    ensures
        r@ == case_success_spec(n@),
{
    let m = vec![mem("status", jstr("completed"))];
    assert(members_view(m@) =~= seq![("status"@, JVal::Str("completed"@))]);
    ok_exec(&n.id, jobj(m))
}

pub open spec fn case_fail_spec(n: NodeV) -> ResultV {
    ResultV {
        id: n.id,
        status: Status::Error,
        output: JVal::Obj(seq![("status"@, JVal::Str("failed"@))]),
        error: Some("Flow reached a failure case"@),
        handle: None,
    }
}

/// A failure terminal: an error result `{status: "failed"}` with a fixed message.
pub fn run_case_fail(n: &Node) -> (r: ExecutionResult)
    ensures
        r@ == case_fail_spec(n@),
{
    let m = vec![mem("status", jstr("failed"))];
    assert(members_view(m@) =~= seq![("status"@, JVal::Str("failed"@))]);
    ExecutionResult {
        node_id: n.id.clone(),
        status: Status::Error,
        output: jobj(m),
        error: Some(String::from_str("Flow reached a failure case")),
        active_handle: None,
    }
}

pub open spec fn unknown_spec(n: NodeV) -> ResultV {
    ResultV {
        id: n.id,
        status: Status::Skipped,
        output: JVal::Obj(seq![("message"@, JVal::Str("Unknown node type"@))]),
        error: None,
        handle: None,
    }
}

/// A node of a type that has no handler: skipped, and the run goes on.
pub fn run_unknown(n: &Node) -> (r: ExecutionResult)
    ensures
        r@ == unknown_spec(n@),
{
    let m = vec![mem("message", jstr("Unknown node type"))];
    assert(members_view(m@) =~= seq![("message"@, JVal::Str("Unknown node type"@))]);
    ExecutionResult {
        node_id: n.id.clone(),
        status: Status::Skipped,
        output: jobj(m),
        error: None,
        active_handle: None,
    }
}

} // verus!
