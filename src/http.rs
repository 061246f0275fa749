//! The `httpRequest` node. The library decides what is sent (method, URL, headers
//! and body, after substitution) and what result a response or a transport failure
//! gives; performing the request is left to the caller.

use vstd::prelude::*;
use crate::json::{Json, JVal, jget, jobj, jstr, mem, members_view, render, text_eq};
use crate::graph::{ExecutionResult, Status, ResultV};
use crate::nodes::{str_or, str_field, ok_result, ok_exec};
use crate::number::{Num, SCALE};
use crate::outside::{json_of_text, parse_json};
use crate::store::{VarStore, substitute, substitute_text};

verus! {

#[derive(Debug, Clone, Copy, PartialEq, Eq, Structural)]
pub enum Method {
    Get,
    Post,
    Put,
    Delete,
    Patch,
}

/// The body to send: JSON when the substituted text reads as JSON, else the text.
#[derive(Debug)]
pub enum HttpBody {
    Json(Json),
    Text(String),
}

/// A request that an `httpRequest` node asks for.
#[derive(Debug)]
pub struct HttpRequest {
    pub method: Method,
    pub url: String,
    pub headers: Vec<(String, String)>,
    pub body: Option<HttpBody>,
}

pub enum BodyV {
    Json(JVal),
    Text(Seq<char>),
}

pub struct RequestV {
    pub method: Method,
    pub url: Seq<char>,
    pub headers: Seq<(Seq<char>, Seq<char>)>,
    pub body: Option<BodyV>,
}

impl View for HttpRequest {
    type V = RequestV;

    open spec fn view(&self) -> RequestV {
        RequestV {
            method: self.method,
            url: self.url@,
            headers: Seq::new(self.headers.len() as nat, |i: int| (self.headers[i].0@, self.headers[i].1@)),
            body: match self.body {
                Some(HttpBody::Json(j)) => Some(BodyV::Json(j@)),
                Some(HttpBody::Text(t)) => Some(BodyV::Text(t@)),
                None => None,
            },
        }
    }
}

pub open spec fn method_of(m: Seq<char>) -> Method {
    if m == "POST"@ {
        Method::Post
    } else if m == "PUT"@ {
        Method::Put
    } else if m == "DELETE"@ {
        Method::Delete
    } else if m == "PATCH"@ {
        Method::Patch
    } else {
        Method::Get
    }
}

/// The text members of the configured headers, values substituted, in order.
pub open spec fn headers_of(m: Seq<(Seq<char>, JVal)>, vars: Seq<(Seq<char>, JVal)>) -> Seq<(Seq<char>, Seq<char>)>
    decreases m.len(),
{
    if m.len() == 0 {
        Seq::empty()
    } else {
        headers_of(m.drop_last(), vars) + match m.last().1 {
            JVal::Str(s) => seq![(m.last().0, substitute(s, vars))],
            _ => Seq::empty(),
        }
    }
}

/// The body: an object or array configured as `body`, as JSON text with placeholders
/// substituted, then read back as JSON when it still is JSON.
pub open spec fn body_of(data: JVal, vars: Seq<(Seq<char>, JVal)>) -> Option<BodyV> {
    match jget(data, "body"@) {
        Some(b) => if b is Obj || b is Arr {
            let t = substitute(render(b), vars);
            match json_of_text(t) {
                Some(v) => Some(BodyV::Json(v)),
                None => Some(BodyV::Text(t)),
            }
        } else {
            None
        },
        None => None,
    }
}

pub open spec fn request_spec(data: JVal, vars: Seq<(Seq<char>, JVal)>) -> RequestV {
    RequestV {
        method: method_of(str_or(data, "method"@, "GET"@)),
        url: substitute(str_or(data, "endpoint"@, ""@), vars),
        headers: match jget(data, "headers"@) {
            Some(JVal::Obj(m)) => headers_of(m, vars),
            _ => Seq::empty(),
        },
        body: body_of(data, vars),
    }
}

/// The request that an httpRequest node with configuration `data` sends.
pub fn build_request(data: &Json, vars: &VarStore) -> (r: HttpRequest)
    ensures
        r@ == request_spec(data@, vars@),
{
    let m = str_field(data, "method", "GET");
    let method = if text_eq(m.as_str(), "POST") {
        Method::Post
    } else if text_eq(m.as_str(), "PUT") {
        Method::Put
    } else if text_eq(m.as_str(), "DELETE") {
        Method::Delete
    } else if text_eq(m.as_str(), "PATCH") {
        Method::Patch
    } else {
        Method::Get
    };
    let endpoint = str_field(data, "endpoint", "");
    let url = substitute_text(endpoint.as_str(), vars);
    let mut headers: Vec<(String, String)> = Vec::new();
    let ghost hv = Seq::<(Seq<char>, Seq<char>)>::empty();
    match data.get("headers") {
        Some(Json::Object(hm)) => {
            proof {
                crate::json::lemma_object_view(*hm);
            }
            let ghost mv = members_view(hm@);
            let mut i: usize = 0;
            assert(mv.take(0) =~= Seq::<(Seq<char>, JVal)>::empty());
            while i < hm.len()
                invariant
                    i <= hm.len(),
                    mv == members_view(hm@),
                    Seq::new(headers.len() as nat, |k: int| (headers@[k].0@, headers@[k].1@))
                        == headers_of(mv.take(i as int), vars@),
                decreases hm.len() - i,
            {
                proof {
                    assert(mv.take(i + 1).drop_last() =~= mv.take(i as int));
                }
                let ghost before = Seq::new(headers.len() as nat, |k: int| (headers@[k].0@, headers@[k].1@));
                match &hm[i].1 {
                    Json::Str(s) => {
                        let v = substitute_text(s.as_str(), vars);
                        headers.push((hm[i].0.clone(), v));
                    },
                    _ => {},
                }
                i = i + 1;
                assert(Seq::new(headers.len() as nat, |k: int| (headers@[k].0@, headers@[k].1@))
                    =~= headers_of(mv.take(i as int), vars@));
            }
            assert(mv.take(hm.len() as int) =~= mv);
        },
        _ => {
            assert(Seq::new(headers.len() as nat, |k: int| (headers@[k].0@, headers@[k].1@))
                =~= Seq::<(Seq<char>, Seq<char>)>::empty());
        },
    }
    let body = match data.get("body") {
        Some(b) => match b {
            Json::Object(_) | Json::Array(_) => {
                let t = substitute_text(b.to_json_text().as_str(), vars);
                match parse_json(t.as_str()) {
                    Some(v) => Some(HttpBody::Json(v)),
                    None => Some(HttpBody::Text(t)),
                }
            },
            _ => None,
        },
        None => None,
    };
    HttpRequest { method, url, headers, body }
}

/// What came of sending a request: a response (status and decoded body), or a
/// transport failure with its message.
#[derive(Debug)]
pub enum HttpOutcome {
    Received { status: u16, data: Json },
    Failed { message: String },
}

pub enum OutcomeV {
    Received { status: int, data: JVal },
    Failed { message: Seq<char> },
}

impl View for HttpOutcome {
    type V = OutcomeV;

    open spec fn view(&self) -> OutcomeV {
        match self {
            HttpOutcome::Received { status, data } => OutcomeV::Received { status: *status as int, data: data@ },
            HttpOutcome::Failed { message } => OutcomeV::Failed { message: message@ },
        }
    }
}

/// The result of an httpRequest node: any response is a success `{data, status}`; a
/// transport failure is an error with null output.
pub open spec fn http_result_spec(id: Seq<char>, o: OutcomeV) -> ResultV {
    match o {
        OutcomeV::Received { status, data } => ok_result(
            id,
            JVal::Obj(seq![("data"@, data), ("status"@, JVal::Num(status * SCALE))]),
        ),
        OutcomeV::Failed { message } => ResultV {
            id,
            status: Status::Error,
            output: JVal::Null,
            error: Some(message),
            handle: None,
        },
    }
}

pub fn http_result(id: &String, o: HttpOutcome) -> (r: ExecutionResult)
    ensures
        r@ == http_result_spec(id@, o@),
{
    match o {
        HttpOutcome::Received { status, data } => {
            let ghost dv = data@;
            let m = vec![mem("data", data), mem("status", Json::Number(Num::from_int(status as i64)))];
            assert(members_view(m@) =~= seq![("data"@, dv), ("status"@, JVal::Num(status * SCALE))]);
            ok_exec(id, jobj(m))
        },
        HttpOutcome::Failed { message } => ExecutionResult {
            node_id: id.clone(),
            status: Status::Error,
            output: Json::Null,
            error: Some(message),
            active_handle: None,
        },
    }
}

/// The payload of a response: with a JSON content type, the decoded body (null when it
/// does not decode); otherwise the body decoded as JSON when it is JSON, else its text.
pub open spec fn response_data_spec(json_type: bool, text: Seq<char>) -> JVal {
    match json_of_text(text) {
        Some(v) => v,
        None => if json_type { JVal::Null } else { JVal::Str(text) },
    }
}

pub fn response_data(json_type: bool, text: &str) -> (r: Json)
    ensures
        r@ == response_data_spec(json_type, text@),
{
    match parse_json(text) {
        Some(v) => v,
        None => if json_type {
            Json::Null
        } else {
            jstr(text)
        },
    }
}

} // verus!
