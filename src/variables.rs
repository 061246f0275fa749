//! Handlers that read or write the variable store: `capture`, `counter`, `input`,
//! `serverTrigger` and `serverResponse`.

use vstd::prelude::*;
use crate::json::{
    Json,
    JVal,
    jget,
    jobj,
    jarr,
    jstr,
    mem,
    member,
    insert_member,
    members_view,
    items_view,
    render,
    text_eq,
};
use crate::graph::{
    Node,
    Flow,
    ExecutionResult,
    Status,
    NodeV,
    FlowV,
    ResultV,
    results_view,
    primary_or_null,
};
use crate::nodes::{Results, str_or, str_field, ok_result, ok_exec, primary_or_null_exec};
use crate::lists::{extract, extract_exec};
use crate::number::{Num, text_units, abs, MAX_UNITS, SCALE};
use crate::outside::{json_of_text, parse_json};
use crate::store::{VarStore, substitute, substitute_text};
use crate::text::chars_of;

verus! {

// ---------------------------------------------------------------- capture

pub open spec fn capture_value(n: NodeV, f: FlowV, rs: Seq<(Seq<char>, ResultV)>) -> JVal {
    extract(primary_or_null(f, rs, n.id), str_or(n.data, "path"@, ""@))
}

pub open spec fn capture_spec(n: NodeV, f: FlowV, rs: Seq<(Seq<char>, ResultV)>) -> ResultV {
    ok_result(
        n.id,
        JVal::Obj(
            seq![("data"@, capture_value(n, f, rs)), ("variable"@, JVal::Str(str_or(n.data, "variable"@, ""@)))],
        ),
    )
}

/// The store after a capture node: the extracted value set under the configured name,
/// when one is configured.
pub open spec fn capture_vars(
    n: NodeV,
    f: FlowV,
    rs: Seq<(Seq<char>, ResultV)>,
    vars: Seq<(Seq<char>, JVal)>,
) -> Seq<(Seq<char>, JVal)> {
    let name = str_or(n.data, "variable"@, ""@);
    if name.len() > 0 {
        insert_member(vars, name, capture_value(n, f, rs))
    } else {
        vars
    }
}

/// A capture node: extracts a dotted path from its primary input and stores it.
pub fn run_capture(n: &Node, f: &Flow, rs: &Results, vars: &mut VarStore) -> (r: ExecutionResult)
    ensures
        r@ == capture_spec(n@, f@, results_view(rs@)),
        final(vars)@ == capture_vars(n@, f@, results_view(rs@), old(vars)@),
{
    let path = str_field(&n.data, "path", "");
    let name = str_field(&n.data, "variable", "");
    let input = primary_or_null_exec(f, rs, n.id.as_str());
    let extracted = extract_exec(&input, path.as_str());
    let nc = chars_of(name.as_str());
    if nc.len() > 0 {
        vars.set(name.clone(), extracted.copy());
    }
    let ghost ev = extracted@;
    let ghost nv = name@;
    let m = vec![mem("data", extracted), mem("variable", Json::Str(name))];
    assert(members_view(m@) =~= seq![("data"@, ev), ("variable"@, JVal::Str(nv))]);
    ok_exec(&n.id, jobj(m))
}

// ---------------------------------------------------------------- counter

/// A variable as a list: an array's items, nothing for null or an absent name, else
/// the value alone.
pub open spec fn var_items(vars: Seq<(Seq<char>, JVal)>, name: Seq<char>) -> Seq<JVal> {
    match member(vars, name) {
        Some(JVal::Arr(a)) => a,
        Some(JVal::Null) => Seq::empty(),
        Some(x) => seq![x],
        None => Seq::empty(),
    }
}

/// A number, or null when it is out of range.
pub open spec fn num_or_null(u: int) -> JVal {
    if abs(u) <= MAX_UNITS { JVal::Num(u) } else { JVal::Null }
}

/// The configured amount, after substitution, as a number (zero when it is none).
pub open spec fn counter_amount(data: JVal, vars: Seq<(Seq<char>, JVal)>) -> int {
    let t = match jget(data, "amount"@) {
        Some(JVal::Str(s)) => s,
        Some(x) => render(x),
        None => "0"@,
    };
    match text_units(substitute(t, vars)) {
        Some(u) => u,
        None => 0,
    }
}

/// The new value of the counter's variable.
pub open spec fn counter_value(n: NodeV, f: FlowV, rs: Seq<(Seq<char>, ResultV)>, vars: Seq<(Seq<char>, JVal)>) -> JVal {
    let name = str_or(n.data, "variable"@, ""@);
    let op = str_or(n.data, "operation"@, "increment"@);
    let amt = counter_amount(n.data, vars);
    let cur = match member(vars, name) {
        Some(JVal::Num(u)) => u,
        _ => 0,
    };
    let input = primary_or_null(f, rs, n.id);
    let items = var_items(vars, name);
    if op == "increment"@ {
        num_or_null(cur + amt)
    } else if op == "decrement"@ {
        num_or_null(cur - amt)
    } else if op == "set"@ {
        JVal::Num(amt)
    } else if op == "assign"@ {
        input
    } else if op == "append"@ {
        JVal::Arr(if input is Null { items } else { items.push(input) })
    } else if op == "prepend"@ {
        JVal::Arr(if input is Null { items } else { seq![input] + items })
    } else if op == "pop"@ {
        JVal::Arr(if items.len() > 0 { items.drop_last() } else { items })
    } else if op == "shift"@ {
        JVal::Arr(if items.len() > 0 { items.drop_first() } else { items })
    } else {
        JVal::Num(cur)
    }
}

pub open spec fn counter_spec(n: NodeV) -> ResultV {
    ok_result(
        n.id,
        JVal::Obj(
            seq![("status"@, JVal::Str("updated"@)), ("variable"@, JVal::Str(str_or(n.data, "variable"@, ""@)))],
        ),
    )
}

pub open spec fn counter_vars(n: NodeV, f: FlowV, rs: Seq<(Seq<char>, ResultV)>, vars: Seq<(Seq<char>, JVal)>) -> Seq<(Seq<char>, JVal)> {
    let name = str_or(n.data, "variable"@, ""@);
    if name.len() > 0 {
        insert_member(vars, name, counter_value(n, f, rs, vars))
    } else {
        vars
    }
}

fn var_items_exec(vars: &VarStore, name: &str) -> (r: Vec<Json>)
    ensures
        items_view(r@) == var_items(vars@, name@),
{
    match vars.get(name) {
        Some(x) => {
            let c = x.copy();
            match c {
                Json::Array(b) => {
                    proof {
                        crate::json::lemma_array_view(b);
                    }
                    b
                },
                Json::Null => {
                    let e: Vec<Json> = Vec::new();
                    assert(items_view(e@) =~= Seq::<JVal>::empty());
                    e
                },
                other => {
                    let ghost xv = other@;
                    let v = vec![other];
                    assert(items_view(v@) =~= seq![xv]);
                    v
                },
            }
        },
        None => {
            let e: Vec<Json> = Vec::new();
            assert(items_view(e@) =~= Seq::<JVal>::empty());
            e
        },
    }
}

fn amount_exec(data: &Json, vars: &VarStore) -> (r: i128)
    ensures
        r == counter_amount(data@, vars@),
{
    let t: String = match data.get("amount") {
        Some(Json::Str(s)) => s.clone(),
        Some(x) => x.to_json_text(),
        None => String::from_str("0"),
    };
    let subbed = substitute_text(t.as_str(), vars);
    match Num::parse(subbed.as_str()) {
        Some(u) => u.units,
        None => 0,
    }
}

fn num_or_null_exec(r: Option<Num>) -> (j: Json)
    ensures
        r.is_some() ==> j@ == JVal::Num(r.unwrap().units as int),
        r.is_none() ==> j@ == JVal::Null,
{
    match r {
        Some(x) => Json::Number(x),
        None => Json::Null,
    }
}

/// The new value of a counter node's variable.
fn counter_value_exec(n: &Node, f: &Flow, rs: &Results, vars: &VarStore) -> (r: Json)
    ensures
        r@ == counter_value(n@, f@, results_view(rs@), vars@),
{
    let name = str_field(&n.data, "variable", "");
    let op = str_field(&n.data, "operation", "increment");
    let amt = amount_exec(&n.data, vars);
    let cur: i128 = match vars.get(name.as_str()) {
        Some(Json::Number(x)) => x.units,
        _ => 0,
    };
    let input = primary_or_null_exec(f, rs, n.id.as_str());
    let curn = Num { units: cur };
    let amtn = Num { units: amt };
    if text_eq(op.as_str(), "increment") {
        num_or_null_exec(curn.checked_add(amtn))
    } else if text_eq(op.as_str(), "decrement") {
        num_or_null_exec(curn.checked_sub(amtn))
    } else if text_eq(op.as_str(), "set") {
        Json::Number(amtn)
    } else if text_eq(op.as_str(), "assign") {
        input
    } else if text_eq(op.as_str(), "append") {
        let mut items = var_items_exec(vars, name.as_str());
        let ghost before = items_view(items@);
        match input {
            Json::Null => {},
            _ => {
                let ghost iv = input@;
                items.push(input);
                assert(items_view(items@) =~= before.push(iv));
            },
        }
        jarr(items)
    } else if text_eq(op.as_str(), "prepend") {
        let mut items = var_items_exec(vars, name.as_str());
        let ghost before = items_view(items@);
        match input {
            Json::Null => {},
            _ => {
                let ghost iv = input@;
                items.insert(0, input);
                assert(items_view(items@) =~= seq![iv] + before);
            },
        }
        jarr(items)
    } else if text_eq(op.as_str(), "pop") {
        let mut items = var_items_exec(vars, name.as_str());
        let ghost before = items_view(items@);
        if items.len() > 0 {
            items.pop();
            assert(items_view(items@) =~= before.drop_last());
        }
        jarr(items)
    } else if text_eq(op.as_str(), "shift") {
        let mut items = var_items_exec(vars, name.as_str());
        let ghost before = items_view(items@);
        if items.len() > 0 {
            items.remove(0);
            assert(items_view(items@) =~= before.drop_first());
        }
        jarr(items)
    } else {
        Json::Number(curn)
    }
}

/// A counter node: updates its variable by the configured operation (arithmetic on
/// numbers, or list edits on arrays) and reports `{status: "updated", variable}`.
pub fn run_counter(n: &Node, f: &Flow, rs: &Results, vars: &mut VarStore) -> (r: ExecutionResult)
    ensures
        r@ == counter_spec(n@),
        final(vars)@ == counter_vars(n@, f@, results_view(rs@), old(vars)@),
{
    let name = str_field(&n.data, "variable", "");
    let nc = chars_of(name.as_str());
    if nc.len() > 0 {
        let v = counter_value_exec(n, f, rs, vars);
        vars.set(name.clone(), v);
    }
    let ghost nv = name@;
    let m = vec![mem("status", jstr("updated")), mem("variable", Json::Str(name))];
    assert(members_view(m@) =~= seq![("status"@, JVal::Str("updated"@)), ("variable"@, JVal::Str(nv))]);
    ok_exec(&n.id, jobj(m))
}

// ---------------------------------------------------------------- input

/// The literal of an input node after substitution, read as its declared type.
pub open spec fn input_value(data: JVal, vars: Seq<(Seq<char>, JVal)>) -> JVal {
    let s = substitute(str_or(data, "value"@, ""@), vars);
    let ty = str_or(data, "type"@, "string"@);
    if ty == "number"@ {
        match text_units(s) {
            Some(u) => JVal::Num(u),
            None => JVal::Str(s),
        }
    } else if ty == "json"@ {
        match json_of_text(s) {
            Some(v) => v,
            None => JVal::Str(s),
        }
    } else {
        JVal::Str(s)
    }
}

pub open spec fn input_spec(n: NodeV, vars: Seq<(Seq<char>, JVal)>) -> ResultV {
    ok_result(n.id, JVal::Obj(seq![("data"@, input_value(n.data, vars))]))
}

/// An input node: emits its literal, after substitution, as a string, number or JSON.
pub fn run_input(n: &Node, vars: &VarStore) -> (r: ExecutionResult)
    ensures
        r@ == input_spec(n@, vars@),
{
    let raw = str_field(&n.data, "value", "");
    let s = substitute_text(raw.as_str(), vars);
    let ty = str_field(&n.data, "type", "string");
    let v = if text_eq(ty.as_str(), "number") {
        match Num::parse(s.as_str()) {
            Some(x) => Json::Number(x),
            None => Json::Str(s),
        }
    } else if text_eq(ty.as_str(), "json") {
        match parse_json(s.as_str()) {
            Some(x) => x,
            None => Json::Str(s),
        }
    } else {
        Json::Str(s)
    };
    let ghost vv = v@;
    let m = vec![mem("data", v)];
    assert(members_view(m@) =~= seq![("data"@, vv)]);
    ok_exec(&n.id, jobj(m))
}

// ---------------------------------------------------------------- server trigger / response

pub open spec fn var_or_null(vars: Seq<(Seq<char>, JVal)>, name: Seq<char>) -> JVal {
    match member(vars, name) {
        Some(v) => v,
        None => JVal::Null,
    }
}

pub open spec fn server_trigger_spec(n: NodeV, vars: Seq<(Seq<char>, JVal)>) -> ResultV {
    let body = var_or_null(vars, "req_body"@);
    ok_result(
        n.id,
        JVal::Obj(
            seq![
                ("body"@, body),
                ("data"@, body),
                ("method"@, var_or_null(vars, "req_method"@)),
                ("query"@, var_or_null(vars, "req_query"@)),
            ],
        ),
    )
}

fn var_or_null_exec(vars: &VarStore, name: &str) -> (r: Json)
    ensures
        r@ == var_or_null(vars@, name@),
{
    match vars.get(name) {
        Some(v) => v.copy(),
        None => Json::Null,
    }
}

/// A server trigger node: republishes the request that the run was started for
/// (`req_method`, `req_body`, `req_query`), with the body as `data`.
pub fn run_server_trigger(n: &Node, vars: &VarStore) -> (r: ExecutionResult)
    ensures
        r@ == server_trigger_spec(n@, vars@),
{
    let body = var_or_null_exec(vars, "req_body");
    let body2 = body.copy();
    let method = var_or_null_exec(vars, "req_method");
    let query = var_or_null_exec(vars, "req_query");
    let ghost (b, mv, q) = (body@, method@, query@);
    let m = vec![mem("body", body), mem("data", body2), mem("method", method), mem("query", query)];
    assert(members_view(m@) =~= seq![("body"@, b), ("data"@, b), ("method"@, mv), ("query"@, q)]);
    ok_exec(&n.id, jobj(m))
}

/// The configured status: a whole number in `i64`'s range, else 200.
pub open spec fn response_status(data: JVal) -> int {
    match jget(data, "status"@) {
        Some(JVal::Num(u)) => if u % (SCALE as int) == 0 && i64::MIN <= u / (SCALE as int) <= i64::MAX {
            u / (SCALE as int)
        } else {
            200
        },
        _ => 200,
    }
}

pub open spec fn response_body(data: JVal, vars: Seq<(Seq<char>, JVal)>) -> JVal {
    match jget(data, "body"@) {
        Some(JVal::Str(s)) => JVal::Str(substitute(s, vars)),
        Some(b) => b,
        None => JVal::Null,
    }
}

pub open spec fn server_response_spec(n: NodeV, f: FlowV, rs: Seq<(Seq<char>, ResultV)>, vars: Seq<(Seq<char>, JVal)>) -> ResultV {
    ResultV {
        id: n.id,
        status: Status::Completed,
        output: JVal::Obj(
            seq![
                (
                    "server_response"@,
                    JVal::Obj(
                        seq![
                            ("body"@, response_body(n.data, vars)),
                            ("source_data"@, primary_or_null(f, rs, n.id)),
                            ("status"@, JVal::Num(response_status(n.data) * SCALE)),
                        ],
                    ),
                ),
            ],
        ),
        error: None,
        handle: None,
    }
}

/// A server response node: the status and body of the reply to the request that
/// started the run, with the primary input as `source_data`.
pub fn run_server_response(n: &Node, f: &Flow, rs: &Results, vars: &VarStore) -> (r: ExecutionResult)
    ensures
        r@ == server_response_spec(n@, f@, results_view(rs@), vars@),
{
    let input = primary_or_null_exec(f, rs, n.id.as_str());
    let status: i64 = match n.data.get("status") {
        Some(Json::Number(x)) => match x.as_i64() {
            Some(k) => k,
            None => 200,
        },
        _ => 200,
    };
    let body = match n.data.get("body") {
        Some(Json::Str(s)) => Json::Str(substitute_text(s.as_str(), vars)),
        Some(b) => b.copy(),
        None => Json::Null,
    };
    let ghost (bv, iv) = (body@, input@);
    let inner = vec![mem("body", body), mem("source_data", input), mem("status", Json::Number(Num::from_int(status)))];
    assert(members_view(inner@) =~= seq![("body"@, bv), ("source_data"@, iv), ("status"@, JVal::Num(status * SCALE))]);
    let inner_j = jobj(inner);
    let ghost inv = inner_j@;
    let m = vec![mem("server_response", inner_j)];
    assert(members_view(m@) =~= seq![("server_response"@, inv)]);
    ExecutionResult {
        node_id: n.id.clone(),
        status: Status::Completed,
        output: jobj(m),
        error: None,
        active_handle: None,
    }
}

} // verus!
