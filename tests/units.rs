use knotwork::graph::{Edge, Flow, Node};
use knotwork::http::{build_request, http_result, response_data, HttpBody, HttpOutcome, Method};
use knotwork::json::Json;
use knotwork::number::Num;
use knotwork::outside::{parse_json, regex_search};
use knotwork::scrape::run_scraper;
use knotwork::store::{substitute_text, VarStore};
use knotwork::templates::{upsert_template, RequestTemplate};
use knotwork::text::{chars_of, split_chars, trim_chars};
use knotwork::graph::{ExecutionResult, Status};

fn text(x: &str) -> Json {
    Json::Str(x.to_string())
}

fn obj(members: Vec<(&str, Json)>) -> Json {
    let mut m: Vec<(String, Json)> = members.into_iter().map(|(k, v)| (k.to_string(), v)).collect();
    m.sort_by(|a, b| a.0.cmp(&b.0));
    Json::Object(m)
}

fn store(entries: Vec<(&str, Json)>) -> VarStore {
    VarStore::from_entries(entries.into_iter().map(|(k, v)| (k.to_string(), v)).collect())
}

#[test]
fn substitution_miss_leaves_text() {
    let vars = store(vec![]);
    assert_eq!(substitute_text("{{unknown}}", &vars), "{{unknown}}");
    let vars = store(vec![("other", text("x"))]);
    assert_eq!(substitute_text("a {{unknown}} b", &vars), "a {{unknown}} b");
}

#[test]
fn substitution_replaces_known_names() {
    let vars = store(vec![("name", text("Ada")), ("n", Json::Number(Num::from_int(3))), ("o", obj(vec![("k", Json::Bool(true))]))]);
    assert_eq!(substitute_text("hi {{name}}, {{n}} {{o}} {{x}}", &vars), r#"hi Ada, 3 {"k":true} {{x}}"#);
    assert_eq!(substitute_text("{{{name}}}", &vars), "{Ada}");
    assert_eq!(substitute_text("{{name", &vars), "{{name");
}

#[test]
fn store_keeps_later_duplicate() {
    let vars = store(vec![("b", text("1")), ("a", text("2")), ("b", text("3"))]);
    let keys: Vec<&str> = vars.entries.iter().map(|(k, _)| k.as_str()).collect();
    assert_eq!(keys, vec!["a", "b"]);
    assert_eq!(vars.get("b").unwrap().to_json_text(), r#""3""#);
}

#[test]
fn number_text_round_trip() {
    let cases = [("42", "42"), ("-3.50", "-3.5"), (".25", "0.25"), ("7.", "7"), ("+1", "1"), ("0.0000000019", "0.000000001")];
    for (input, shown) in cases {
        assert_eq!(Num::parse(input).unwrap().to_text(), shown, "{}", input);
    }
    for (input, shown) in [("1e5", "100000"), ("12.5e-1", "1.25"), ("3E+2", "300"), ("1e-10", "0"), ("0e999999", "0")] {
        assert_eq!(Num::parse(input).unwrap().to_text(), shown, "{}", input);
    }
    for bad in ["", "-", ".", "e5", "1e", "1e+", "abc", " 1", "inf", "1.2.3", "1e40"] {
        assert!(Num::parse(bad).is_none(), "{}", bad);
    }
}

#[test]
fn number_arithmetic_and_range() {
    let a = Num::parse("1.5").unwrap();
    let b = Num::parse("2.25").unwrap();
    assert_eq!(a.checked_add(b).unwrap().to_text(), "3.75");
    assert_eq!(a.checked_sub(b).unwrap().to_text(), "-0.75");
    let big = Num::parse("100000000000000000000").unwrap();
    assert!(big.checked_add(big).is_some());
    let huge = big.checked_add(big).unwrap();
    assert!(huge.checked_add(huge).is_none());
    assert_eq!(Num::from_int(7).as_u64(), Some(7));
    assert_eq!(a.as_u64(), None);
    assert_eq!(Num::from_int(-4).as_i64(), Some(-4));
}

#[test]
fn json_text_escapes() {
    let v = obj(vec![("s", text("a\"b\\c\nd\u{1}é")), ("n", Json::Null), ("l", Json::Array(vec![Json::Bool(false), Json::Number(Num::from_int(-2))]))]);
    assert_eq!(v.to_json_text(), r#"{"l":[false,-2],"n":null,"s":"a\"b\\c\nd\u0001é"}"#);
    assert_eq!(text("plain").text(), "plain");
}

#[test]
fn json_parse_through_serde() {
    let v = parse_json(r#" {"b": [1, 2.5, "x"], "a": null} "#).unwrap();
    assert_eq!(v.to_json_text(), r#"{"a":null,"b":[1,2.5,"x"]}"#);
    assert!(parse_json("{oops").is_none());
    assert!(parse_json("1 2").is_none());
}

#[test]
fn regex_through_crate() {
    assert_eq!(regex_search("^a.c$", "abc"), Some(true));
    assert_eq!(regex_search("^a.c$", "abcd"), Some(false));
    assert_eq!(regex_search("(", "x"), None);
}

#[test]
fn text_split_and_trim() {
    let parts = split_chars(&chars_of("a..b"), '.');
    let parts: Vec<String> = parts.iter().map(|p| p.iter().collect()).collect();
    assert_eq!(parts, vec!["a", "", "b"]);
    let t: String = trim_chars(&chars_of("\u{3000} x y \t")).iter().collect();
    assert_eq!(t, "x y");
}

fn flow_with(nodes: Vec<Node>, edges: Vec<Edge>) -> Flow {
    Flow { nodes, edges }
}

fn edge(from: &str, to: &str) -> Edge {
    Edge {
        id: format!("{}-{}", from, to),
        source: from.to_string(),
        target: to.to_string(),
        source_handle: None,
        target_handle: None,
        animated: false,
        style: None,
    }
}

fn html_result(id: &str, html: &str) -> (String, ExecutionResult) {
    (
        id.to_string(),
        ExecutionResult {
            node_id: id.to_string(),
            status: Status::Success,
            output: obj(vec![("data", text(html))]),
            error: None,
            active_handle: None,
        },
    )
}

#[test]
fn scraper_reads_records() {
    let rules = Json::Array(vec![
        obj(vec![("selector", text("a")), ("attribute", text("href")), ("key", text("link"))]),
        obj(vec![("selector", text(".t")), ("key", text("title"))]),
    ]);
    let node = Node {
        id: "s".to_string(),
        node_type: "scraper".to_string(),
        data: obj(vec![("container_selector", text("li")), ("rules", rules)]),
    };
    let html = r#"<ul><li><a href="/1">x</a><span class="t"> One <b>A</b> </span></li><li><span class="t">Two</span></li><li></li></ul>"#;
    let flow = flow_with(vec![Node { id: "p".to_string(), node_type: "input".to_string(), data: obj(vec![]) }], vec![edge("p", "s")]);
    let results = vec![html_result("p", html)];
    let r = run_scraper(&node, &flow, &results);
    assert_eq!(
        r.output.to_json_text(),
        r#"{"data":[{"link":"/1","title":"One  A"},{"title":"Two"}],"items":[{"link":"/1","title":"One  A"},{"title":"Two"}]}"#
    );
}

#[test]
fn scraper_keeps_document_order_and_rule_keys() {
    let rules = Json::Array(vec![
        obj(vec![("selector", text("span")), ("key", text("t"))]),
        obj(vec![("selector", text("a")), ("attribute", text("href")), ("key", text("h"))]),
    ]);
    let node = Node {
        id: "s".to_string(),
        node_type: "scraper".to_string(),
        data: obj(vec![("container_selector", text("div.c")), ("rules", rules)]),
    };
    let html = "<div class='c'><span>X</span></div><div class='c'><span> Y </span><a href='/y'>l</a></div>";
    let flow = flow_with(vec![], vec![edge("p", "s")]);
    let r = run_scraper(&node, &flow, &vec![html_result("p", html)]);
    assert_eq!(
        r.output.to_json_text(),
        r#"{"data":[{"t":"X"},{"h":"/y","t":"Y"}],"items":[{"t":"X"},{"h":"/y","t":"Y"}]}"#
    );
}

#[test]
fn json_numbers_in_exponent_form() {
    let v = parse_json("[1e2, 2.5e-1, 1e300]").unwrap();
    assert_eq!(v.to_json_text(), "[100,0.25,null]");
}

#[test]
fn scraper_single_record_and_empty_input() {
    let rules = Json::Array(vec![obj(vec![("selector", text("h1"))])]);
    let node = Node { id: "s".to_string(), node_type: "scraper".to_string(), data: obj(vec![("rules", rules)]) };
    let flow = flow_with(vec![], vec![edge("p", "s")]);
    let r = run_scraper(&node, &flow, &vec![html_result("p", "<h1>Hi</h1>")]);
    assert_eq!(r.output.to_json_text(), r#"{"data":[{"value":"Hi"}],"items":[{"value":"Hi"}]}"#);
    let r = run_scraper(&node, &flow, &vec![]);
    assert_eq!(r.output.to_json_text(), r#"{"items":[]}"#);
}

#[test]
fn http_request_is_substituted() {
    let data = obj(vec![
        ("method", text("POST")),
        ("endpoint", text("https://h/{{id}}")),
        ("headers", obj(vec![("X-Key", text("{{key}}")), ("X-N", Json::Number(Num::from_int(1)))])),
        ("body", obj(vec![("who", text("{{id}}"))])),
    ]);
    let vars = VarStore::from_entries(vec![("id".to_string(), text("7")), ("key".to_string(), text("k1"))]);
    let req = build_request(&data, &vars);
    assert_eq!(req.method, Method::Post);
    assert_eq!(req.url, "https://h/7");
    assert_eq!(req.headers, vec![("X-Key".to_string(), "k1".to_string())]);
    match req.body {
        Some(HttpBody::Json(j)) => assert_eq!(j.to_json_text(), r#"{"who":"7"}"#),
        _ => panic!("expected a JSON body"),
    }
    let plain = build_request(&obj(vec![]), &vars);
    assert_eq!(plain.method, Method::Get);
    assert!(plain.body.is_none());
}

#[test]
fn http_body_that_stops_being_json_is_text() {
    let data = obj(vec![("body", obj(vec![("n", text("{{raw}}"))]))]);
    let vars = VarStore::from_entries(vec![("raw".to_string(), text("a\"b"))]);
    match build_request(&data, &vars).body {
        Some(HttpBody::Text(t)) => assert_eq!(t, r#"{"n":"a"b"}"#),
        _ => panic!("expected a text body"),
    }
}

#[test]
fn http_outcomes_become_results() {
    let ok = http_result(&"h".to_string(), HttpOutcome::Received { status: 404, data: response_data(false, "nope") });
    assert_eq!(ok.status, Status::Success);
    assert_eq!(ok.output.to_json_text(), r#"{"data":"nope","status":404}"#);
    let failed = http_result(&"h".to_string(), HttpOutcome::Failed { message: "refused".to_string() });
    assert_eq!(failed.status, Status::Error);
    assert_eq!(failed.error.as_deref(), Some("refused"));
    assert_eq!(response_data(true, "not json").to_json_text(), "null");
    assert_eq!(response_data(false, "[1]").to_json_text(), "[1]");
}

fn template(id: &str, name: &str) -> RequestTemplate {
    RequestTemplate {
        id: id.to_string(),
        name: name.to_string(),
        method: "GET".to_string(),
        endpoint: "/".to_string(),
        headers: None,
        body: None,
        params: None,
    }
}

#[test]
fn templates_replace_by_id() {
    let mut ts = vec![template("1", "a"), template("2", "b")];
    upsert_template(&mut ts, template("2", "c"));
    upsert_template(&mut ts, template("3", "d"));
    let names: Vec<&str> = ts.iter().map(|t| t.name.as_str()).collect();
    assert_eq!(names, vec!["a", "c", "d"]);
}
