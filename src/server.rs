//! The bridge between one inbound request and one run: the variables a run starts
//! with, and the reply that its results give.

use vstd::prelude::*;
use crate::json::{
    Json,
    JVal,
    jget,
    jobj,
    mem,
    members_view,
    insert_member,
    insert_member_exec,
    text_of,
};
use crate::graph::{Flow, FlowV, ResultV, results_view, node_of, find_node};
use crate::nodes::Results;
use crate::engine::{kind_of, kind_exec, Kind};
use crate::number::SCALE;

verus! {

/// The query of a request as a JSON object (a later duplicate name wins).
pub open spec fn query_object(q: Seq<(Seq<char>, Seq<char>)>) -> Seq<(Seq<char>, JVal)>
    decreases q.len(),
{
    if q.len() == 0 {
        Seq::empty()
    } else {
        insert_member(query_object(q.drop_last()), q.last().0, JVal::Str(q.last().1))
    }
}

/// The variables a run for an inbound request starts with: `req_body`, `req_method`
/// and `req_query`.
pub open spec fn request_vars(method: Seq<char>, body: Seq<char>, query: Seq<(Seq<char>, Seq<char>)>) -> Seq<(Seq<char>, JVal)> {
    seq![
        ("req_body"@, JVal::Str(body)),
        ("req_method"@, JVal::Str(method)),
        ("req_query"@, JVal::Obj(query_object(query))),
    ]
}

pub fn request_variables(method: String, body: String, query: Vec<(String, String)>) -> (r: Vec<(String, Json)>)
    ensures
        members_view(r@) == request_vars(
            method@,
            body@,
            Seq::new(query.len() as nat, |i: int| (query@[i].0@, query@[i].1@)),
        ),
{
    let ghost qv = Seq::new(query.len() as nat, |i: int| (query@[i].0@, query@[i].1@));
    let mut obj: Vec<(String, Json)> = Vec::new();
    let mut i: usize = 0;
    assert(members_view(obj@) =~= query_object(qv.take(0)));
    while i < query.len()
        invariant
            i <= query.len(),
            qv == Seq::new(query.len() as nat, |i: int| (query@[i].0@, query@[i].1@)),
            members_view(obj@) == query_object(qv.take(i as int)),
        decreases query.len() - i,
    {
        proof {
            assert(qv.take(i + 1).drop_last() =~= qv.take(i as int));
            assert(qv.take(i + 1).last() == qv[i as int]);
        }
        insert_member_exec(&mut obj, query[i].0.clone(), Json::Str(query[i].1.clone()));
        i = i + 1;
    }
    assert(qv.take(query.len() as int) =~= qv);
    let ghost (mv, bv, ov) = (method@, body@, members_view(obj@));
    let q = jobj(obj);
    let r = vec![mem("req_body", Json::Str(body)), mem("req_method", Json::Str(method)), mem("req_query", q)];
    assert(members_view(r@) =~= request_vars(mv, bv, qv));
    r
}

/// What the caller replies when no server response node has a result.
pub open spec fn fallback_reply() -> (int, Seq<char>) {
    (200, "Flow executed, but no ServerResponse node found."@)
}

/// The first result, in stored order, of a node of type `serverResponse`.
pub open spec fn response_result(f: FlowV, rs: Seq<(Seq<char>, ResultV)>) -> Option<ResultV>
    decreases rs.len(),
{
    if rs.len() == 0 {
        None
    } else if node_of(f.nodes, rs[0].0) is Some && kind_of(node_of(f.nodes, rs[0].0).unwrap().kind) == Kind::ServerResponse {
        Some(rs[0].1)
    } else {
        response_result(f, rs.drop_first())
    }
}

/// A status number as an HTTP status: its low 16 bits, when they make a code in
/// `100..=999`, else 200.
pub open spec fn reply_status(s: int) -> int {
    let code = s % 65536;
    if 100 <= code <= 999 { code } else { 200 }
}

/// The reply of a run: the status and body of the first server response result, the
/// body as its text; or the fallback.
pub open spec fn reply_spec(f: FlowV, rs: Seq<(Seq<char>, ResultV)>) -> (int, Seq<char>) {
    match response_result(f, rs) {
        Some(r) => match jget(r.output, "server_response"@) {
            Some(resp) => (
                reply_status(match jget(resp, "status"@) {
                    Some(JVal::Num(u)) => if u % (SCALE as int) == 0 && i64::MIN <= u / (SCALE as int) <= i64::MAX {
                        u / (SCALE as int)
                    } else {
                        200
                    },
                    _ => 200,
                }),
                match jget(resp, "body"@) {
                    Some(b) => text_of(b),
                    None => text_of(JVal::Null),
                },
            ),
            None => fallback_reply(),
        },
        None => fallback_reply(),
    }
}

proof fn lemma_response_skip(f: FlowV, rs: Seq<(Seq<char>, ResultV)>, i: int)
    requires
        0 <= i <= rs.len(),
        forall|j: int| 0 <= j < i ==> !(node_of(f.nodes, #[trigger] rs[j].0) is Some && kind_of(node_of(f.nodes, rs[j].0).unwrap().kind) == Kind::ServerResponse),
    ensures
        response_result(f, rs) == response_result(f, rs.skip(i)),
    decreases i,
{
    if i == 0 {
        assert(rs.skip(0) =~= rs);
    } else {
        assert forall|j: int| 0 <= j < i - 1 implies !(node_of(f.nodes, #[trigger] rs.drop_first()[j].0) is Some && kind_of(node_of(f.nodes, rs.drop_first()[j].0).unwrap().kind) == Kind::ServerResponse) by {
            assert(rs.drop_first()[j] == rs[j + 1]);
        }
        lemma_response_skip(f, rs.drop_first(), i - 1);
        assert(rs.drop_first().skip(i - 1) =~= rs.skip(i));
    }
}

/// The status and body that the caller replies with after a run for a request.
pub fn reply_of(f: &Flow, rs: &Results) -> (r: (u16, String))
    ensures
        r.0 as int == reply_spec(f@, results_view(rs@)).0,
        r.1@ == reply_spec(f@, results_view(rs@)).1,
{
    let ghost rv = results_view(rs@);
    let mut i: usize = 0;
    while i < rs.len()
        invariant
            i <= rs.len(),
            rv == results_view(rs@),
            forall|j: int| 0 <= j < i ==> !(node_of(f@.nodes, #[trigger] rv[j].0) is Some && kind_of(node_of(f@.nodes, rv[j].0).unwrap().kind) == Kind::ServerResponse),
        decreases rs.len() - i,
    {
        let is_response = match find_node(f, rs[i].0.as_str()) {
            Some(k) => kind_exec(f.nodes[k].node_type.as_str()) == Kind::ServerResponse,
            None => false,
        };
        if is_response {
            proof {
                lemma_response_skip(f@, rv, i as int);
                assert(rv.skip(i as int)[0] == rv[i as int]);
            }
            let out = &rs[i].1.output;
            match out.get("server_response") {
                Some(resp) => {
                    let s: i64 = match resp.get("status") {
                        Some(Json::Number(x)) => match x.as_i64() {
                            Some(k) => k,
                            None => 200,
                        },
                        _ => 200,
                    };
                    let code: i64 = ((s % 65536) + 65536) % 65536;
                    assert(code == s as int % 65536);
                    let status: u16 = if 100 <= code && code <= 999 { code as u16 } else { 200 };
                    let body = match resp.get("body") {
                        Some(b) => b.text(),
                        None => Json::Null.text(),
                    };
                    return (status, body);
                },
                None => {
                    return (200, String::from_str("Flow executed, but no ServerResponse node found."));
                },
            }
        }
        i = i + 1;
    }
    proof {
        lemma_response_skip(f@, rv, i as int);
        assert(rv.skip(i as int) =~= Seq::<(Seq<char>, ResultV)>::empty());
    }
    (200, String::from_str("Flow executed, but no ServerResponse node found."))
}

} // verus!
