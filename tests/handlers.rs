use knotwork::engine::Run;
use knotwork::graph::{Edge, ExecutionResult, Flow, Node, Status};
use knotwork::json::Json;
use knotwork::number::Num;
use knotwork::server::request_variables;

fn text(x: &str) -> Json {
    Json::Str(x.to_string())
}

fn obj(members: Vec<(&str, Json)>) -> Json {
    let mut m: Vec<(String, Json)> = members.into_iter().map(|(k, v)| (k.to_string(), v)).collect();
    m.sort_by(|a, b| a.0.cmp(&b.0));
    Json::Object(m)
}

fn node(id: &str, ty: &str, data: Json) -> Node {
    Node { id: id.to_string(), node_type: ty.to_string(), data }
}

fn edge(from: &str, to: &str) -> Edge {
    Edge {
        id: format!("{}-{}", from, to),
        source: from.to_string(),
        target: to.to_string(),
        source_handle: None,
        target_handle: None,
        animated: false,
        style: None,
    }
}

fn run_all(flow: &Flow, vars: Vec<(String, Json)>) -> Run {
    let mut run = Run::start(flow, vars);
    assert!(run.run_until_blocked(flow).is_none());
    run
}

fn output(run: &Run, id: &str) -> String {
    let r: &ExecutionResult = &run.results.iter().find(|(k, _)| k == id).unwrap().1;
    r.output.to_json_text()
}

fn filter_flow(items: &str, condition: &str, value: &str) -> Flow {
    Flow {
        nodes: vec![
            node("a", "input", obj(vec![("type", text("json")), ("value", text(items))])),
            node("f", "filter", obj(vec![("condition", text(condition)), ("value", text(value))])),
        ],
        edges: vec![edge("a", "f")],
    }
}

#[test]
fn filter_by_regex() {
    let run = run_all(&filter_flow(r#"["a1","b2","a3"]"#, "regex", "^a[0-9]$"), vec![]);
    assert_eq!(output(&run, "f"), r#"{"data":["a1","a3"],"items":["a1","a3"],"total":2}"#);
    let run = run_all(&filter_flow(r#"["a1"]"#, "regex", "("), vec![]);
    assert_eq!(output(&run, "f"), r#"{"data":[],"items":[],"total":0}"#);
}

#[test]
fn filter_by_extension() {
    let run = run_all(&filter_flow(r#"["x.png","y.txt","z.JPG","w.jpg"]"#, "extension", ".png, .jpg"), vec![]);
    assert_eq!(output(&run, "f"), r#"{"data":["x.png","w.jpg"],"items":["x.png","w.jpg"],"total":2}"#);
}

#[test]
fn filter_exists_on_scalar_and_without_input() {
    let run = run_all(&filter_flow("7", "exists", ""), vec![]);
    assert_eq!(output(&run, "f"), r#"{"data":[7],"items":[7],"total":1}"#);
    let lonely = Flow { nodes: vec![node("f", "filter", obj(vec![]))], edges: vec![] };
    let run = run_all(&lonely, vec![]);
    assert_eq!(output(&run, "f"), r#"{"data":[],"items":[],"total":0}"#);
}

#[test]
fn debug_collects_predecessors() {
    let flow = Flow {
        nodes: vec![
            node("z", "input", obj(vec![("value", text("last"))])),
            node("b", "input", obj(vec![("value", text("first"))])),
            node("d", "debug", obj(vec![])),
        ],
        edges: vec![edge("z", "d"), edge("b", "d")],
    };
    let run = run_all(&flow, vec![]);
    let out = output(&run, "d");
    assert!(out.starts_with(r#"{"debug":{"#));
    assert!(out.ends_with(r#""message":"Debug info captured"}"#));
}

#[test]
fn passthrough_echoes_data() {
    let flow = Flow {
        nodes: vec![
            node("a", "input", obj(vec![("value", text("v"))])),
            node("p", "group", obj(vec![])),
            node("q", "comment", obj(vec![])),
        ],
        edges: vec![edge("a", "p")],
    };
    let run = run_all(&flow, vec![]);
    assert_eq!(output(&run, "p"), r#"{"data":"v","status":"ok"}"#);
    assert_eq!(output(&run, "q"), r#"{"data":null,"status":"ok"}"#);
}

#[test]
fn server_trigger_republishes_request() {
    let flow = Flow { nodes: vec![node("t", "serverTrigger", obj(vec![]))], edges: vec![] };
    let vars = request_variables("GET".to_string(), "b".to_string(), vec![("z".to_string(), "1".to_string()), ("a".to_string(), "2".to_string())]);
    let run = run_all(&flow, vars);
    assert_eq!(output(&run, "t"), r#"{"body":"b","data":"b","method":"GET","query":{"a":"2","z":"1"}}"#);
}

#[test]
fn input_json_falls_back_to_text() {
    let flow = Flow {
        nodes: vec![
            node("a", "input", obj(vec![("type", text("json")), ("value", text("{not json"))])),
            node("b", "input", obj(vec![("type", text("number")), ("value", text("12abc"))])),
        ],
        edges: vec![],
    };
    let run = run_all(&flow, vec![]);
    assert_eq!(output(&run, "a"), r#"{"data":"{not json"}"#);
    assert_eq!(output(&run, "b"), r#"{"data":"12abc"}"#);
}

#[test]
fn mapper_reads_number_key() {
    let flow = Flow {
        nodes: vec![
            node("a", "input", obj(vec![("type", text("number")), ("value", text("1.50"))])),
            node("m", "mapper", obj(vec![("fallback", Json::Null), ("mapping", obj(vec![("1.5", text("one and a half"))]))])),
        ],
        edges: vec![edge("a", "m")],
    };
    let run = run_all(&flow, vec![]);
    assert_eq!(output(&run, "m"), r#"{"data":"one and a half"}"#);
}

#[test]
fn counter_list_edits() {
    let flow = Flow {
        nodes: vec![
            node("p", "counter", obj(vec![("operation", text("pop")), ("variable", text("l"))])),
            node("s", "counter", obj(vec![("operation", text("shift")), ("variable", text("l"))])),
            node("v", "input", obj(vec![("value", text("new"))])),
            node("u", "counter", obj(vec![("operation", text("prepend")), ("variable", text("l"))])),
            node("x", "counter", obj(vec![("operation", text("set")), ("amount", Json::Number(Num::from_int(9))), ("variable", text("k"))])),
        ],
        edges: vec![edge("p", "s"), edge("s", "v"), edge("v", "u"), edge("u", "x")],
    };
    let list = Json::Array(vec![text("a"), text("b"), text("c")]);
    let run = run_all(&flow, vec![("l".to_string(), list)]);
    let l = run.vars.get("l").unwrap().to_json_text();
    assert_eq!(l, r#"["new","b"]"#);
    assert_eq!(run.vars.get("k").unwrap().to_json_text(), "9");
    assert_eq!(run.results.iter().find(|(k, _)| k == "x").unwrap().1.status, Status::Success);
}

#[test]
fn condition_compares_text_when_not_numbers() {
    let flow = Flow {
        nodes: vec![
            node("a", "input", obj(vec![("value", text("pear"))])),
            node("c", "condition", obj(vec![("condition", text("lessThan")), ("targetValue", text("plum"))])),
        ],
        edges: vec![edge("a", "c")],
    };
    let run = run_all(&flow, vec![]);
    let r = &run.results.iter().find(|(k, _)| k == "c").unwrap().1;
    assert_eq!(r.active_handle.as_deref(), Some("true"));
    assert_eq!(r.output.to_json_text(), r#"{"input":"pear","result":true}"#);
}

#[test]
fn filter_reads_dotted_property() {
    let flow = Flow {
        nodes: vec![
            node("a", "input", obj(vec![("type", text("json")), ("value", text(r#"[{"a":{"b":"x"}},{"a":{"b":"y"}},{"c":1}]"#))])),
            node("f", "filter", obj(vec![("condition", text("equals")), ("property", text("a.b")), ("value", text("x"))])),
            node("g", "filter", obj(vec![("condition", text("notExists")), ("property", text("a.b"))])),
        ],
        edges: vec![edge("a", "f"), edge("a", "g")],
    };
    let run = run_all(&flow, vec![]);
    assert_eq!(output(&run, "f"), r#"{"data":[{"a":{"b":"x"}}],"items":[{"a":{"b":"x"}}],"total":1}"#);
    assert_eq!(output(&run, "g"), r#"{"data":[{"c":1}],"items":[{"c":1}],"total":1}"#);
}

#[test]
fn input_number_reads_exponent() {
    let flow = Flow {
        nodes: vec![
            node("a", "input", obj(vec![("type", text("number")), ("value", text("1e3"))])),
            node("b", "input", obj(vec![("type", text("number")), ("value", text("-2.5E-2"))])),
            node("c", "input", obj(vec![("type", text("number")), ("value", text("1e400"))])),
        ],
        edges: vec![],
    };
    let run = run_all(&flow, vec![]);
    assert_eq!(output(&run, "a"), r#"{"data":1000}"#);
    assert_eq!(output(&run, "b"), r#"{"data":-0.025}"#);
    assert_eq!(output(&run, "c"), r#"{"data":"1e400"}"#);
}
