//! Handlers that decide: `condition` selects a branch, `loop` walks an array one
//! item per visit, `assert` passes or fails its input.

use vstd::prelude::*;
use crate::json::{
    Json,
    JVal,
    jget,
    jobj,
    jstr,
    mem,
    members_view,
    text_of,
    text_eq,
    text_lt,
    lt_chars,
};
use crate::graph::{
    Node,
    Flow,
    ExecutionResult,
    Status,
    NodeV,
    FlowV,
    ResultV,
    results_view,
    result_of,
    parents,
    primary_or_null,
    data_or_all,
    parents_exec,
};
use crate::nodes::{
    Results,
    str_or,
    str_field,
    ok_result,
    ok_exec,
    result_lookup,
    primary_or_null_exec,
    data_or_all_exec,
};
use crate::number::{Num, text_units, SCALE};
use crate::outside::{regex_valid, regex_finds, regex_search};
use crate::text::{chars_of, string_of, contains, contains_chars, push_str};

verus! {

/// A comparison of two numbers (in units) named by `c`.
pub open spec fn num_test(c: Seq<char>, a: int, b: int) -> bool {
    if c == "equal"@ {
        a == b
    } else if c == "notEqual"@ {
        a != b
    } else if c == "greaterThan"@ {
        a > b
    } else if c == "lessThan"@ {
        a < b
    } else {
        false
    }
}

/// A comparison of two texts named by `c`.
pub open spec fn str_test(c: Seq<char>, a: Seq<char>, b: Seq<char>) -> bool {
    if c == "equal"@ {
        a == b
    } else if c == "notEqual"@ {
        a != b
    } else if c == "greaterThan"@ {
        text_lt(b, a)
    } else if c == "lessThan"@ {
        text_lt(a, b)
    } else if c == "contains"@ {
        contains(a, b)
    } else {
        false
    }
}

/// The number an input stands for: its own value, else what its text denotes.
pub open spec fn input_number(v: JVal) -> Option<int> {
    match v {
        JVal::Num(u) => Some(u),
        _ => text_units(text_of(v)),
    }
}

/// Whether a condition node's test holds of its input.
pub open spec fn condition_holds(data: JVal, input: JVal) -> bool {
    let cond = str_or(data, "condition"@, "equal"@);
    let target = str_or(data, "targetValue"@, ""@);
    match (input_number(input), text_units(target)) {
        (Some(a), Some(b)) => num_test(cond, a, b),
        _ => str_test(cond, text_of(input), target),
    }
}

pub open spec fn condition_spec(n: NodeV, f: FlowV, rs: Seq<(Seq<char>, ResultV)>) -> ResultV {
    let input = primary_or_null(f, rs, n.id);
    let t = condition_holds(n.data, input);
    ResultV {
        id: n.id,
        status: Status::Success,
        output: JVal::Obj(seq![("input"@, input), ("result"@, JVal::Bool(t))]),
        error: None,
        handle: Some(if t { "true"@ } else { "false"@ }),
    }
}

fn num_test_exec(c: &str, a: i128, b: i128) -> (r: bool)
    ensures
        r == num_test(c@, a as int, b as int),
{
    if text_eq(c, "equal") {
        a == b
    } else if text_eq(c, "notEqual") {
        a != b
    } else if text_eq(c, "greaterThan") {
        a > b
    } else if text_eq(c, "lessThan") {
        a < b
    } else {
        false
    }
}

fn str_test_exec(c: &str, a: &str, b: &str) -> (r: bool)
    ensures
        r == str_test(c@, a@, b@),
{
    let ac = chars_of(a);
    let bc = chars_of(b);
    if text_eq(c, "equal") {
        text_eq(a, b)
    } else if text_eq(c, "notEqual") {
        !text_eq(a, b)
    } else if text_eq(c, "greaterThan") {
        lt_chars(&bc, &ac)
    } else if text_eq(c, "lessThan") {
        lt_chars(&ac, &bc)
    } else if text_eq(c, "contains") {
        contains_chars(&ac, &bc)
    } else {
        false
    }
}

/// Whether a condition node's test holds of `input`, given its configuration `data`.
pub fn condition_test(data: &Json, input: &Json) -> (r: bool)
    ensures
        r == condition_holds(data@, input@),
{
    let cond = str_field(data, "condition", "equal");
    let target = str_field(data, "targetValue", "");
    let istr = input.text();
    let iv: Option<Num> = match input {
        Json::Number(n) => Some(*n),
        _ => Num::parse(istr.as_str()),
    };
    let tv = Num::parse(target.as_str());
    match (iv, tv) {
        (Some(a), Some(b)) => num_test_exec(cond.as_str(), a.units, b.units),
        _ => str_test_exec(cond.as_str(), istr.as_str(), target.as_str()),
    }
}

/// A condition node: compares its primary input with `targetValue` and selects the
/// `"true"` or `"false"` branch.
pub fn run_condition(n: &Node, f: &Flow, rs: &Results) -> (r: ExecutionResult)
    ensures
        r@ == condition_spec(n@, f@, results_view(rs@)),
{
    let input = primary_or_null_exec(f, rs, n.id.as_str());
    let t = condition_test(&n.data, &input);
    let ghost iv = input@;
    let m = vec![mem("input", input), mem("result", Json::Bool(t))];
    assert(members_view(m@) =~= seq![("input"@, iv), ("result"@, JVal::Bool(t))]);
    ExecutionResult {
        node_id: n.id.clone(),
        status: Status::Success,
        output: jobj(m),
        error: None,
        active_handle: Some(if t { String::from_str("true") } else { String::from_str("false") }),
    }
}

// ---------------------------------------------------------------- loop

/// The array a loop walks: the first predecessor result, in edge order, whose payload
/// (or whole output) is a non-empty array.
pub open spec fn loop_array(ps: Seq<Seq<char>>, rs: Seq<(Seq<char>, ResultV)>) -> Seq<JVal>
    decreases ps.len(),
{
    if ps.len() == 0 {
        Seq::empty()
    } else {
        let rest = loop_array(ps.drop_first(), rs);
        match result_of(rs, ps[0]) {
            Some(r) => match data_or_all(r.output) {
                JVal::Arr(a) => if a.len() > 0 { a } else { rest },
                _ => match r.output {
                    JVal::Arr(a) => if a.len() > 0 { a } else { rest },
                    _ => rest,
                },
            },
            None => rest,
        }
    }
}

/// A whole number in `0..=u64::MAX`, in units.
pub open spec fn as_index(v: Option<JVal>) -> int {
    match v {
        Some(JVal::Num(u)) => if u >= 0 && u % (SCALE as int) == 0 && u / (SCALE as int) <= u64::MAX {
            u / (SCALE as int)
        } else {
            0
        },
        _ => 0,
    }
}

/// The index of this visit: one past the index of the previous visit, or zero.
pub open spec fn loop_index(id: Seq<char>, rs: Seq<(Seq<char>, ResultV)>) -> int {
    match result_of(rs, id) {
        Some(r) => as_index(jget(r.output, "index"@)) + 1,
        None => 0,
    }
}

pub open spec fn loop_spec(n: NodeV, f: FlowV, rs: Seq<(Seq<char>, ResultV)>) -> ResultV {
    let index = loop_index(n.id, rs);
    let arr = loop_array(parents(f.edges, n.id), rs);
    if index < arr.len() {
        ResultV {
            id: n.id,
            status: Status::Success,
            output: JVal::Obj(
                seq![("data"@, arr[index]), ("index"@, JVal::Num(index * SCALE)), ("item"@, arr[index])],
            ),
            error: None,
            handle: Some("body"@),
        }
    } else {
        ResultV {
            id: n.id,
            status: Status::Success,
            output: JVal::Obj(seq![("index"@, JVal::Num(index * SCALE)), ("status"@, JVal::Str("done"@))]),
            error: None,
            handle: Some("done"@),
        }
    }
}

fn nonempty_array(v: &Json) -> (r: bool)
    ensures
        r == (v@ is Arr && v@->Arr_0.len() > 0),
{
    match v {
        Json::Array(a) => {
            proof {
                crate::json::lemma_array_view(*a);
            }
            a.len() > 0
        },
        _ => false,
    }
}

/// The array that a loop node walks, from its predecessors' results.
fn find_loop_array(ps: &Vec<String>, rs: &Results) -> (r: Json)
    ensures
        r@ == JVal::Arr(loop_array(Seq::new(ps.len() as nat, |i: int| ps@[i]@), results_view(rs@))),
{
    let ghost pv = Seq::new(ps.len() as nat, |i: int| ps@[i]@);
    let mut i: usize = 0;
    assert(pv.skip(0) =~= pv);
    while i < ps.len()
        invariant
            i <= ps.len(),
            pv == Seq::new(ps.len() as nat, |i: int| ps@[i]@),
            loop_array(pv, results_view(rs@)) == loop_array(pv.skip(i as int), results_view(rs@)),
        decreases ps.len() - i,
    {
        let ghost sk = pv.skip(i as int);
        proof {
            assert(sk.drop_first() =~= pv.skip(i + 1));
            assert(sk[0] == ps@[i as int]@);
        }
        match result_lookup(rs, ps[i].as_str()) {
            Some(res) => {
                let val = data_or_all_exec(&res.output);
                match val {
                    Json::Array(_) => {
                        if nonempty_array(&val) {
                            return val;
                        }
                    },
                    _ => {
                        if nonempty_array(&res.output) {
                            return res.output.copy();
                        }
                    },
                }
            },
            None => {},
        }
        i = i + 1;
    }
    proof {
        assert(pv.skip(i as int) =~= Seq::<Seq<char>>::empty());
    }
    let empty: Vec<Json> = Vec::new();
    assert(crate::json::items_view(empty@) =~= Seq::<JVal>::empty());
    crate::json::jarr(empty)
}

fn index_of_result(r: &ExecutionResult) -> (k: u64)
    ensures
        k == as_index(jget(r.output@, "index"@)),
{
    match r.output.get("index") {
        Some(Json::Number(n)) => match n.as_u64() {
            Some(k) => k,
            None => 0,
        },
        _ => 0,
    }
}

/// A loop node: emits item `index` of its input array on the `"body"` branch, or
/// `"done"` once the index has passed the end.
pub fn run_loop(n: &Node, f: &Flow, rs: &Results) -> (r: ExecutionResult)
    ensures
        r@ == loop_spec(n@, f@, results_view(rs@)),
{
    let index: i128 = match result_lookup(rs, n.id.as_str()) {
        Some(prev) => index_of_result(prev) as i128 + 1,
        None => 0,
    };
    let ps = parents_exec(f, n.id.as_str());
    let arr = find_loop_array(&ps, rs);
    proof {
        assert(Seq::new(ps.len() as nat, |i: int| ps@[i]@) =~= parents(f@.edges, n@.id));
    }
    let num = Num { units: index * SCALE };
    match arr {
        Json::Array(a) => {
            proof {
                crate::json::lemma_array_view(a);
            }
            if index < a.len() as i128 {
                let item = a[index as usize].copy();
                let item2 = a[index as usize].copy();
                let ghost iv = item@;
                let m = vec![mem("data", item), mem("index", Json::Number(num)), mem("item", item2)];
                assert(members_view(m@) =~= seq![("data"@, iv), ("index"@, JVal::Num(index * SCALE)), ("item"@, iv)]);
                return ExecutionResult {
                    node_id: n.id.clone(),
                    status: Status::Success,
                    output: jobj(m),
                    error: None,
                    active_handle: Some(String::from_str("body")),
                };
            }
        },
        _ => {},
    }
    let m = vec![mem("index", Json::Number(num)), mem("status", jstr("done"))];
    assert(members_view(m@) =~= seq![("index"@, JVal::Num(index * SCALE)), ("status"@, JVal::Str("done"@))]);
    ExecutionResult {
        node_id: n.id.clone(),
        status: Status::Success,
        output: jobj(m),
        error: None,
        active_handle: Some(String::from_str("done")),
    }
}

// ---------------------------------------------------------------- assert

/// Whether an assert node's check, named by `c`, passes for input text `s` and value `q`.
pub open spec fn assert_check(c: Seq<char>, s: Seq<char>, q: Seq<char>) -> bool {
    if c == "equals"@ {
        s == q
    } else if c == "notEquals"@ {
        s != q
    } else if c == "contains"@ {
        contains(s, q)
    } else if c == "notContains"@ {
        !contains(s, q)
    } else if c == "greaterThan"@ {
        match (text_units(s), text_units(q)) {
            (Some(a), Some(b)) => a > b,
            _ => false,
        }
    } else if c == "lessThan"@ {
        match (text_units(s), text_units(q)) {
            (Some(a), Some(b)) => a < b,
            _ => false,
        }
    } else if c == "regex"@ {
        regex_valid(q) && regex_finds(q, s)
    } else {
        false
    }
}

/// The message of a failed assertion.
pub open spec fn assert_message(msg: Seq<char>, c: Seq<char>, q: Seq<char>, s: Seq<char>) -> Seq<char> {
    msg + ": Expected "@ + c + " '"@ + q + "', got '"@ + s + "'"@
}

pub open spec fn assert_spec(n: NodeV, f: FlowV, rs: Seq<(Seq<char>, ResultV)>) -> ResultV {
    let input = primary_or_null(f, rs, n.id);
    let c = str_or(n.data, "condition"@, "equals"@);
    let q = str_or(n.data, "value"@, ""@);
    let msg = str_or(n.data, "message"@, "Assertion failed"@);
    let s = text_of(input);
    if assert_check(c, s, q) {
        ok_result(n.id, JVal::Obj(seq![("data"@, input), ("status"@, JVal::Str("passed"@))]))
    } else {
        ResultV {
            id: n.id,
            status: Status::Error,
            output: JVal::Obj(
                seq![("actual"@, input), ("expected"@, JVal::Str(q)), ("status"@, JVal::Str("failed"@))],
            ),
            error: Some(assert_message(msg, c, q, s)),
            handle: None,
        }
    }
}

fn compare_numbers(s: &str, q: &str, greater: bool) -> (r: bool)
    ensures
        r == match (text_units(s@), text_units(q@)) {
            (Some(a), Some(b)) => if greater { a > b } else { a < b },
            _ => false,
        },
{
    match (Num::parse(s), Num::parse(q)) {
        (Some(a), Some(b)) => if greater { a.units > b.units } else { a.units < b.units },
        _ => false,
    }
}

/// Whether an assert node's check passes.
pub fn assert_check_exec(c: &str, s: &str, q: &str) -> (r: bool)
    ensures
        r == assert_check(c@, s@, q@),
{
    let sc = chars_of(s);
    let qc = chars_of(q);
    if text_eq(c, "equals") {
        text_eq(s, q)
    } else if text_eq(c, "notEquals") {
        !text_eq(s, q)
    } else if text_eq(c, "contains") {
        contains_chars(&sc, &qc)
    } else if text_eq(c, "notContains") {
        !contains_chars(&sc, &qc)
    } else if text_eq(c, "greaterThan") {
        compare_numbers(s, q, true)
    } else if text_eq(c, "lessThan") {
        compare_numbers(s, q, false)
    } else if text_eq(c, "regex") {
        match regex_search(q, s) {
            Some(b) => b,
            None => false,
        }
    } else {
        false
    }
}

/// An assert node: passes its input through, or fails with a message that names the
/// check, the expected value and what it got.
pub fn run_assert(n: &Node, f: &Flow, rs: &Results) -> (r: ExecutionResult)
    ensures
        r@ == assert_spec(n@, f@, results_view(rs@)),
{
    let input = primary_or_null_exec(f, rs, n.id.as_str());
    let c = str_field(&n.data, "condition", "equals");
    let q = str_field(&n.data, "value", "");
    let msg = str_field(&n.data, "message", "Assertion failed");
    let s = input.text();
    let ghost iv = input@;
    if assert_check_exec(c.as_str(), s.as_str(), q.as_str()) {
        let m = vec![mem("data", input), mem("status", jstr("passed"))];
        assert(members_view(m@) =~= seq![("data"@, iv), ("status"@, JVal::Str("passed"@))]);
        ok_exec(&n.id, jobj(m))
    } else {
        let mut e: Vec<char> = Vec::new();
        push_str(&mut e, msg.as_str());
        push_str(&mut e, ": Expected ");
        push_str(&mut e, c.as_str());
        push_str(&mut e, " '");
        push_str(&mut e, q.as_str());
        push_str(&mut e, "', got '");
        push_str(&mut e, s.as_str());
        push_str(&mut e, "'");
        assert(e@ =~= assert_message(msg@, c@, q@, s@));
        let ghost qv = q@;
        let m = vec![mem("actual", input), mem("expected", Json::Str(q)), mem("status", jstr("failed"))];
        assert(members_view(m@) =~= seq![("actual"@, iv), ("expected"@, JVal::Str(qv)), ("status"@, JVal::Str("failed"@))]);
        ExecutionResult {
            node_id: n.id.clone(),
            status: Status::Error,
            output: jobj(m),
            error: Some(string_of(e.as_slice())),
            active_handle: None,
        }
    }
}

} // verus!
