use knotwork::engine::Run;
use knotwork::graph::{Edge, ExecutionResult, Flow, Node, Status};
use knotwork::json::Json;
use knotwork::number::Num;
use knotwork::server::{reply_of, request_variables};

fn s(x: &str) -> String {
    x.to_string()
}

fn obj(members: Vec<(&str, Json)>) -> Json {
    let mut m: Vec<(String, Json)> = members.into_iter().map(|(k, v)| (k.to_string(), v)).collect();
    m.sort_by(|a, b| a.0.cmp(&b.0));
    Json::Object(m)
}

fn text(x: &str) -> Json {
    Json::Str(x.to_string())
}

fn node(id: &str, ty: &str, data: Json) -> Node {
    Node { id: s(id), node_type: s(ty), data }
}

fn edge(id: &str, from: &str, to: &str, handle: Option<&str>) -> Edge {
    Edge {
        id: s(id),
        source: s(from),
        target: s(to),
        source_handle: handle.map(s),
        target_handle: None,
        animated: false,
        style: None,
    }
}

fn run_all(flow: &Flow, vars: Vec<(String, Json)>) -> Run {
    let mut run = Run::start(flow, vars);
    let req = run.run_until_blocked(flow);
    assert!(req.is_none());
    assert!(run.is_finished());
    run
}

fn result<'a>(run: &'a Run, id: &str) -> &'a ExecutionResult {
    &run.results.iter().find(|(k, _)| k == id).expect("result").1
}

fn var<'a>(run: &'a Run, name: &str) -> Option<&'a Json> {
    run.vars.entries.iter().find(|(k, _)| k == name).map(|(_, v)| v)
}

fn render(j: &Json) -> String {
    j.to_json_text()
}

#[test]
fn number_input_greater_than_takes_true_branch() {
    let flow = Flow {
        nodes: vec![
            node("in", "input", obj(vec![("type", text("number")), ("value", text("42"))])),
            node("cond", "condition", obj(vec![("condition", text("greaterThan")), ("targetValue", text("10"))])),
        ],
        edges: vec![edge("e1", "in", "cond", None)],
    };
    let run = run_all(&flow, vec![]);
    let r = result(&run, "cond");
    assert_eq!(r.active_handle.as_deref(), Some("true"));
    assert_eq!(render(r.output.get("result").unwrap()), "true");
    assert_eq!(render(r.output.get("input").unwrap()), "42");
}

fn append_flow(item: &str) -> Flow {
    Flow {
        nodes: vec![
            node("in", "input", obj(vec![("value", text(item))])),
            node("c", "counter", obj(vec![("operation", text("append")), ("variable", text("list"))])),
        ],
        edges: vec![edge("e1", "in", "c", None)],
    }
}

#[test]
fn counter_append_builds_list_across_runs() {
    let run1 = run_all(&append_flow("x"), vec![]);
    assert_eq!(render(var(&run1, "list").unwrap()), r#"["x"]"#);
    let carried: Vec<(String, Json)> = run1.vars.entries;
    let run2 = run_all(&append_flow("y"), carried);
    assert_eq!(render(var(&run2, "list").unwrap()), r#"["x","y"]"#);
}

#[test]
fn reply_without_response_node_is_fallback() {
    let flow = Flow {
        nodes: vec![
            node("t", "serverTrigger", obj(vec![])),
            node("p", "output", obj(vec![])),
        ],
        edges: vec![edge("e1", "t", "p", None)],
    };
    let vars = request_variables(s("POST"), s("hello"), vec![(s("a"), s("1"))]);
    let run = run_all(&flow, vars);
    let (status, body) = reply_of(&flow, &run.results);
    assert_eq!(status, 200);
    assert_eq!(body, "Flow executed, but no ServerResponse node found.");
    assert_eq!(render(&result(&run, "p").output), r#"{"data":"hello","status":"ok"}"#);
}

#[test]
fn reply_from_response_node() {
    let flow = Flow {
        nodes: vec![
            node("t", "serverTrigger", obj(vec![])),
            node(
                "r",
                "serverResponse",
                obj(vec![("status", Json::Number(Num::from_int(201))), ("body", text("got {{req_body}}"))]),
            ),
        ],
        edges: vec![edge("e1", "t", "r", None)],
    };
    let vars = request_variables(s("POST"), s("hello"), vec![]);
    let run = run_all(&flow, vars);
    assert_eq!(result(&run, "r").status, Status::Completed);
    let (status, body) = reply_of(&flow, &run.results);
    assert_eq!(status, 201);
    assert_eq!(body, "got hello");
}

fn sample_flow() -> Flow {
    Flow {
        nodes: vec![
            node("a", "input", obj(vec![("type", text("json")), ("value", text(r#"[{"n":1},{"n":2},{"n":3}]"#))])),
            node("f", "filter", obj(vec![("condition", text("notEquals")), ("property", text("n")), ("value", text("2"))])),
            node("m", "arrayMap", obj(vec![("path", text("n"))])),
            node("d", "debug", obj(vec![])),
        ],
        edges: vec![edge("e1", "a", "f", None), edge("e2", "f", "m", None), edge("e3", "m", "d", None)],
    }
}

#[test]
fn repeated_runs_agree() {
    let flow = sample_flow();
    let one = run_all(&flow, vec![(s("k"), text("v"))]);
    let two = run_all(&flow, vec![(s("k"), text("v"))]);
    assert_eq!(one.results.len(), two.results.len());
    for ((k1, r1), (k2, r2)) in one.results.iter().zip(two.results.iter()) {
        assert_eq!(k1, k2);
        assert_eq!(render(&r1.output), render(&r2.output));
        assert_eq!(r1.status, r2.status);
    }
    assert_eq!(render(&Json::Object(one.vars.entries)), render(&Json::Object(two.vars.entries)));
}

#[test]
fn filter_and_map_report_totals() {
    let run = run_all(&sample_flow(), vec![]);
    let f = &result(&run, "f").output;
    assert_eq!(render(f), r#"{"data":[{"n":1},{"n":3}],"items":[{"n":1},{"n":3}],"total":2}"#);
    let m = &result(&run, "m").output;
    assert_eq!(render(m.get("total").unwrap()), "2");
    assert_eq!(render(m.get("items").unwrap()), "[1,3]");
}

#[test]
fn condition_enqueues_one_branch() {
    let flow = Flow {
        nodes: vec![
            node("in", "input", obj(vec![("value", text("apple"))])),
            node("cond", "condition", obj(vec![("condition", text("contains")), ("targetValue", text("pp"))])),
            node("yes", "output", obj(vec![])),
            node("no", "output", obj(vec![])),
        ],
        edges: vec![
            edge("e1", "in", "cond", None),
            edge("e2", "cond", "yes", Some("true")),
            edge("e3", "cond", "no", Some("false")),
        ],
    };
    let run = run_all(&flow, vec![]);
    assert!(run.results.iter().any(|(k, _)| k == "yes"));
    assert!(!run.results.iter().any(|(k, _)| k == "no"));
}

fn loop_flow(items: &str) -> Flow {
    Flow {
        nodes: vec![
            node("src", "input", obj(vec![("type", text("json")), ("value", text(items))])),
            node("lp", "loop", obj(vec![])),
            node("acc", "counter", obj(vec![("operation", text("append")), ("variable", text("seen"))])),
            node("n", "counter", obj(vec![("amount", text("1")), ("variable", text("bodies"))])),
            node("end", "caseSuccess", obj(vec![])),
        ],
        edges: vec![
            edge("e1", "src", "lp", None),
            edge("e2", "lp", "acc", Some("body")),
            edge("e3", "acc", "n", None),
            edge("e4", "lp", "end", Some("done")),
        ],
    }
}

#[test]
fn loop_runs_body_once_per_item_then_done() {
    let run = run_all(&loop_flow(r#"["a","b","c"]"#), vec![]);
    assert_eq!(render(var(&run, "seen").unwrap()), r#"["a","b","c"]"#);
    assert_eq!(render(var(&run, "bodies").unwrap()), "3");
    let lp = result(&run, "lp");
    assert_eq!(lp.active_handle.as_deref(), Some("done"));
    assert_eq!(render(&lp.output), r#"{"index":3,"status":"done"}"#);
    assert_eq!(render(&result(&run, "end").output), r#"{"status":"completed"}"#);
}

#[test]
fn loop_over_empty_array_is_done_at_once() {
    let run = run_all(&loop_flow("[]"), vec![]);
    assert!(var(&run, "seen").is_none());
    assert_eq!(render(&result(&run, "lp").output), r#"{"index":0,"status":"done"}"#);
}

#[test]
fn cycle_stops_at_visit_limit() {
    let flow = Flow {
        nodes: vec![
            node("a", "start", obj(vec![])),
            node("b", "counter", obj(vec![("variable", text("hits"))])),
        ],
        edges: vec![edge("e1", "a", "b", None), edge("e2", "b", "a", None)],
    };
    let run = run_all(&flow, vec![]);
    let visits = |id: &str| run.visits.iter().find(|(k, _)| k == id).unwrap().1;
    assert_eq!(visits("a"), 10001);
    assert_eq!(visits("b"), 10000);
    assert_eq!(render(var(&run, "hits").unwrap()), "0");
}

#[test]
fn unknown_type_is_skipped() {
    let flow = Flow { nodes: vec![node("x", "teleport", obj(vec![]))], edges: vec![] };
    let run = run_all(&flow, vec![]);
    let r = result(&run, "x");
    assert_eq!(r.status, Status::Skipped);
    assert_eq!(render(&r.output), r#"{"message":"Unknown node type"}"#);
}

#[test]
fn assert_failure_message() {
    let flow = Flow {
        nodes: vec![
            node("in", "input", obj(vec![("type", text("number")), ("value", text("5"))])),
            node("chk", "assert", obj(vec![("condition", text("greaterThan")), ("value", text("7")), ("message", text("Too small"))])),
        ],
        edges: vec![edge("e1", "in", "chk", None)],
    };
    let run = run_all(&flow, vec![]);
    let r = result(&run, "chk");
    assert_eq!(r.status, Status::Error);
    assert_eq!(r.error.as_deref(), Some("Too small: Expected greaterThan '7', got '5'"));
    assert_eq!(render(&r.output), r#"{"actual":5,"expected":"7","status":"failed"}"#);
}

#[test]
fn case_fail_is_an_error() {
    let flow = Flow { nodes: vec![node("x", "caseFail", obj(vec![]))], edges: vec![] };
    let run = run_all(&flow, vec![]);
    assert_eq!(result(&run, "x").status, Status::Error);
}

#[test]
fn capture_then_substitute_in_input() {
    let flow = Flow {
        nodes: vec![
            node("a", "input", obj(vec![("type", text("json")), ("value", text(r#"{"user":{"name":"Ada"}}"#))])),
            node("cap", "capture", obj(vec![("path", text("user.name")), ("variable", text("who"))])),
            node("b", "input", obj(vec![("value", text("hi {{who}}"))])),
        ],
        edges: vec![edge("e1", "a", "cap", None), edge("e2", "cap", "b", None)],
    };
    let run = run_all(&flow, vec![]);
    assert_eq!(render(var(&run, "who").unwrap()), r#""Ada""#);
    assert_eq!(render(&result(&run, "b").output), r#"{"data":"hi Ada"}"#);
}

#[test]
fn mapper_falls_back() {
    let mapping = obj(vec![("1", text("one")), ("2", text("two"))]);
    let flow = Flow {
        nodes: vec![
            node("in", "input", obj(vec![("type", text("number")), ("value", text("2"))])),
            node("m", "mapper", obj(vec![("mapping", mapping)])),
            node("in2", "input", obj(vec![("value", text("9"))])),
            node("m2", "mapper", obj(vec![("mapping", obj(vec![]))])),
        ],
        edges: vec![edge("e1", "in", "m", None), edge("e2", "in2", "m2", None)],
    };
    let run = run_all(&flow, vec![]);
    assert_eq!(render(&result(&run, "m").output), r#"{"data":"two"}"#);
    assert_eq!(render(&result(&run, "m2").output), r#"{"data":"Unknown"}"#);
}

#[test]
fn counter_arithmetic() {
    let flow = Flow {
        nodes: vec![
            node("a", "counter", obj(vec![("amount", text("2.5")), ("operation", text("increment")), ("variable", text("n"))])),
            node("b", "counter", obj(vec![("amount", text("{{step}}")), ("operation", text("decrement")), ("variable", text("n"))])),
        ],
        edges: vec![edge("e1", "a", "b", None)],
    };
    let run = run_all(&flow, vec![(s("n"), Json::Number(Num::from_int(10))), (s("step"), text("0.25"))]);
    assert_eq!(render(var(&run, "n").unwrap()), "12.25");
}

#[test]
fn entry_ids_run_from_the_top_of_the_stack() {
    let flow = Flow {
        nodes: vec![
            node("b", "counter", obj(vec![("operation", text("append")), ("variable", text("order"))])),
            node("a", "input", obj(vec![("value", text("first"))])),
        ],
        edges: vec![edge("e1", "a", "b", None)],
    };
    let run = Run::start(&flow, vec![]);
    assert_eq!(run.queue, vec![s("a")]);
}
