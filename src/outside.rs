//! Calls into outside crates that several handlers share: JSON text parsing
//! (serde_json) and regular expressions (regex). Each contract says what the call is
//! relied on for; results that take pages to state are named, not written out. The
//! HTML library's calls stand with the scraper node, in `scrape`.

use vstd::prelude::*;
use crate::json::{Json, JVal, items_view, members_view, lemma_array_view, lemma_object_view};
use crate::number::{Num, text_units};
use crate::nodes::opt_jview;

verus! {

#[verifier::external_type_specification]
#[verifier::external_body]
pub struct ExValue(serde_json::Value);

/// A JSON document as serde_json reads it, before numbers are interpreted: each
/// number is the text serde_json writes for it.
#[derive(Debug)]
pub enum RawJson {
    Null,
    Bool(bool),
    Number(String),
    Str(String),
    Array(Vec<RawJson>),
    Object(Vec<(String, RawJson)>),
}

pub enum RawV {
    Null,
    Bool(bool),
    Num(Seq<char>),
    Str(Seq<char>),
    Arr(Seq<RawV>),
    Obj(Seq<(Seq<char>, RawV)>),
}

pub open spec fn raw_view(j: RawJson) -> RawV
    decreases j,
{
    match j {
        RawJson::Null => RawV::Null,
        RawJson::Bool(b) => RawV::Bool(b),
        RawJson::Number(t) => RawV::Num(t@),
        RawJson::Str(s) => RawV::Str(s@),
        RawJson::Array(a) => RawV::Arr(
            Seq::new(a.len() as nat, |i: int| if 0 <= i < a.len() { raw_view(a[i]) } else { RawV::Null }),
        ),
        RawJson::Object(m) => RawV::Obj(
            Seq::new(
                m.len() as nat,
                |i: int|
                    if 0 <= i < m.len() {
                        (m[i].0@, raw_view(m[i].1))
                    } else {
                        (Seq::empty(), RawV::Null)
                    },
            ),
        ),
    }
}

impl View for RawJson {
    type V = RawV;

    open spec fn view(&self) -> RawV {
        raw_view(*self)
    }
}

/// The value of a document: each number read as decimal text (see `number`), null
/// when it is not representable.
pub open spec fn cook(r: RawV) -> JVal
    decreases r,
{
    match r {
        RawV::Null => JVal::Null,
        RawV::Bool(b) => JVal::Bool(b),
        RawV::Num(t) => match text_units(t) {
            Some(u) => JVal::Num(u),
            None => JVal::Null,
        },
        RawV::Str(s) => JVal::Str(s),
        RawV::Arr(a) => JVal::Arr(
            Seq::new(a.len(), |i: int| if 0 <= i < a.len() { cook(a[i]) } else { JVal::Null }),
        ),
        RawV::Obj(m) => JVal::Obj(
            Seq::new(
                m.len(),
                |i: int|
                    if 0 <= i < m.len() {
                        (m[i].0, cook(m[i].1))
                    } else {
                        (Seq::empty(), JVal::Null)
                    },
            ),
        ),
    }
}

/// The document that serde_json reads from a text, when the text is one JSON document.
pub uninterp spec fn parsed_json(s: Seq<char>) -> Option<RawV>;

/// The value of a JSON text, when it is one JSON document.
pub open spec fn json_of_text(s: Seq<char>) -> Option<JVal> {
    match parsed_json(s) {
        Some(r) => Some(cook(r)),
        None => None,
    }
}

/// Relies on `serde_json::from_str::<serde_json::Value>`: the document when the text
/// holds exactly one JSON document, else nothing. The result depends on the text alone.
#[verifier::external_body]
fn parse_raw_json(s: &str) -> (r: Option<RawJson>)
    ensures
        r.is_some() == parsed_json(s@).is_some(),
        r.is_some() ==> r.unwrap()@ == parsed_json(s@).unwrap(),
{
    serde_json::from_str::<serde_json::Value>(s).ok().map(|v| raw_of_value(&v))
}

/// Carries a `serde_json::Value` over into `RawJson`, variant for variant; a number
/// becomes its serde_json text (`serde_json::Number`'s `Display`).
#[verifier::external_body]
fn raw_of_value(v: &serde_json::Value) -> RawJson {
    match v {
        serde_json::Value::Null => RawJson::Null,
        serde_json::Value::Bool(b) => RawJson::Bool(*b),
        serde_json::Value::Number(n) => RawJson::Number(n.to_string()),
        serde_json::Value::String(s) => RawJson::Str(s.clone()),
        serde_json::Value::Array(a) => RawJson::Array(a.iter().map(raw_of_value).collect()),
        serde_json::Value::Object(m) => RawJson::Object(
            m.iter().map(|(k, x)| (k.clone(), raw_of_value(x))).collect(),
        ),
    }
}

proof fn lemma_raw_array_view(a: Vec<RawJson>)
    ensures
        RawJson::Array(a)@ == RawV::Arr(Seq::new(a.len() as nat, |i: int| a@[i]@)),
{
    let v = raw_view(RawJson::Array(a));
    assert(v->Arr_0 =~= Seq::new(a.len() as nat, |i: int| a@[i]@));
}

proof fn lemma_raw_object_view(m: Vec<(String, RawJson)>)
    ensures
        RawJson::Object(m)@ == RawV::Obj(Seq::new(m.len() as nat, |i: int| (m@[i].0@, m@[i].1@))),
{
    let v = raw_view(RawJson::Object(m));
    assert(v->Obj_0 =~= Seq::new(m.len() as nat, |i: int| (m@[i].0@, m@[i].1@)));
}

/// The value of a document, numbers read as decimal text.
pub fn cook_exec(r: &RawJson) -> (j: Json)
    ensures
        j@ == cook(r@),
    decreases r,
{
    match r {
        RawJson::Null => Json::Null,
        RawJson::Bool(b) => Json::Bool(*b),
        RawJson::Number(t) => match Num::parse(t.as_str()) {
            Some(n) => Json::Number(n),
            None => Json::Null,
        },
        RawJson::Str(s) => Json::Str(s.clone()),
        RawJson::Array(a) => {
            proof {
                lemma_raw_array_view(*a);
            }
            let mut out: Vec<Json> = Vec::new();
            let mut i: usize = 0;
            while i < a.len()
                invariant
                    i <= a.len(),
                    out.len() == i,
                    *r == RawJson::Array(*a),
                    decreases_to!(*r => *a),
                    forall|k: int| 0 <= k < i ==> (#[trigger] out@[k])@ == cook(a@[k]@),
                decreases a.len() - i,
            {
                proof {
                    assert(decreases_to!(*a => a[i as int]));
                }
                let x = cook_exec(&a[i]);
                out.push(x);
                i = i + 1;
            }
            proof {
                lemma_array_view(out);
                let rv = r@->Arr_0;
                assert(items_view(out@) =~= cook(r@)->Arr_0);
            }
            Json::Array(out)
        },
        RawJson::Object(m) => {
            proof {
                lemma_raw_object_view(*m);
            }
            let mut out: Vec<(String, Json)> = Vec::new();
            let mut i: usize = 0;
            while i < m.len()
                invariant
                    i <= m.len(),
                    out.len() == i,
                    *r == RawJson::Object(*m),
                    decreases_to!(*r => *m),
                    forall|k: int| 0 <= k < i ==> (#[trigger] out@[k]).0@ == m@[k].0@,
                    forall|k: int| 0 <= k < i ==> (#[trigger] out@[k]).1@ == cook(m@[k].1@),
                decreases m.len() - i,
            {
                proof {
                    assert(decreases_to!(*m => m[i as int]));
                    assert(decreases_to!(m[i as int] => m[i as int].1));
                }
                let k = m[i].0.clone();
                let x = cook_exec(&m[i].1);
                out.push((k, x));
                i = i + 1;
            }
            proof {
                lemma_object_view(out);
                assert(members_view(out@) =~= cook(r@)->Obj_0);
            }
            Json::Object(out)
        },
    }
}

/// The value of a JSON text, when it holds exactly one JSON document.
pub fn parse_json(s: &str) -> (r: Option<Json>)
    ensures
        opt_jview(r) == json_of_text(s@),
{
    match parse_raw_json(s) {
        Some(raw) => Some(cook_exec(&raw)),
        None => None,
    }
}

/// Whether `regex::Regex::new` accepts the pattern.
pub uninterp spec fn regex_valid(p: Seq<char>) -> bool;

/// Whether the compiled pattern matches somewhere in the text (`Regex::is_match`).
pub uninterp spec fn regex_finds(p: Seq<char>, t: Seq<char>) -> bool;

/// Relies on `regex::Regex::new` (an error exactly for a pattern it does not accept)
/// and `regex::Regex::is_match` (a match anywhere in the text). Neither panics.
#[verifier::external_body]
pub fn regex_search(pattern: &str, text: &str) -> (r: Option<bool>)
    ensures
        r == (if regex_valid(pattern@) {
            Some(regex_finds(pattern@, text@))
        } else {
            None
        }),
{
    regex::Regex::new(pattern).ok().map(|re| re.is_match(text))
}

} // verus!
