//! Handlers over arrays: `filter` keeps the items that pass a test, `arrayMap`
//! extracts a dotted path from each item. Both read dotted paths as `capture` does.

use vstd::prelude::*;
use crate::json::{Json, JVal, jget, jobj, jarr, mem, members_view, items_view, text_of, text_eq};
use crate::graph::{Node, Flow, ExecutionResult, NodeV, FlowV, ResultV, results_view, primary};
use crate::nodes::{Results, str_or, str_field, ok_result, ok_exec, primary_exec};
use crate::number::{Num, SCALE};
use crate::outside::{regex_valid, regex_finds, regex_search};
use crate::text::{
    chars_of,
    string_of,
    contains,
    contains_chars,
    ends_with,
    ends_with_chars,
    split,
    split_chars,
    pieces_view,
    trim,
    trim_chars,
};

verus! {

/// Follows member names `parts` from `v`; a missing member gives null.
pub open spec fn walk(v: JVal, parts: Seq<Seq<char>>) -> JVal
    decreases parts.len(),
{
    if parts.len() == 0 {
        v
    } else {
        match jget(v, parts[0]) {
            Some(x) => walk(x, parts.drop_first()),
            None => JVal::Null,
        }
    }
}

/// The value at a dotted path; the empty path is the value itself.
pub open spec fn extract(v: JVal, path: Seq<char>) -> JVal {
    if path.len() == 0 {
        v
    } else {
        walk(v, split(path, '.'))
    }
}

/// The value at dotted `path` in `v`.
pub fn extract_exec(v: &Json, path: &str) -> (r: Json)
    ensures
        r@ == extract(v@, path@),
{
    let pc = chars_of(path);
    if pc.len() == 0 {
        return v.copy();
    }
    let parts = split_chars(&pc, '.');
    let ghost pv = pieces_view(parts@);
    let mut cur = v.copy();
    let mut i: usize = 0;
    assert(pv.skip(0) =~= pv);
    while i < parts.len()
        invariant
            i <= parts.len(),
            pv == pieces_view(parts@),
            walk(v@, pv) == walk(cur@, pv.skip(i as int)),
        decreases parts.len() - i,
    {
        let name = string_of(parts[i].as_slice());
        proof {
            assert(pv.skip(i as int).drop_first() =~= pv.skip(i + 1));
            assert(pv.skip(i as int)[0] == parts@[i as int]@);
        }
        let next = match cur.get(name.as_str()) {
            Some(x) => x.copy(),
            None => Json::Null,
        };
        cur = next;
        i = i + 1;
    }
    assert(pv.skip(i as int) =~= Seq::<Seq<char>>::empty());
    cur
}

/// Follows member names `parts` from `v`; nothing when a member is missing.
pub open spec fn walk_opt(v: JVal, parts: Seq<Seq<char>>) -> Option<JVal>
    decreases parts.len(),
{
    if parts.len() == 0 {
        Some(v)
    } else {
        match jget(v, parts[0]) {
            Some(x) => walk_opt(x, parts.drop_first()),
            None => None,
        }
    }
}

/// The value at dotted `path` in `v`, or nothing when a member on the way is missing.
pub fn lookup_path(v: &Json, path: &str) -> (r: Option<Json>)
    ensures
        crate::nodes::opt_jview(r) == walk_opt(v@, split(path@, '.')),
{
    let pc = chars_of(path);
    let parts = split_chars(&pc, '.');
    let ghost pv = pieces_view(parts@);
    let mut cur = v.copy();
    let mut i: usize = 0;
    assert(pv.skip(0) =~= pv);
    while i < parts.len()
        invariant
            i <= parts.len(),
            pv == pieces_view(parts@),
            pv == split(path@, '.'),
            walk_opt(v@, pv) == walk_opt(cur@, pv.skip(i as int)),
        decreases parts.len() - i,
    {
        let name = string_of(parts[i].as_slice());
        proof {
            assert(pv.skip(i as int).drop_first() =~= pv.skip(i + 1));
            assert(pv.skip(i as int)[0] == parts@[i as int]@);
        }
        let next = match cur.get(name.as_str()) {
            Some(x) => x.copy(),
            None => {
                return None;
            },
        };
        cur = next;
        i = i + 1;
    }
    assert(pv.skip(i as int) =~= Seq::<Seq<char>>::empty());
    Some(cur)
}

/// An array as a list of items; any other value is a list of itself.
pub open spec fn as_items(v: JVal) -> Seq<JVal> {
    match v {
        JVal::Arr(a) => a,
        _ => seq![v],
    }
}

fn as_items_exec(v: Json) -> (r: Vec<Json>)
    ensures
        items_view(r@) == as_items(v@),
{
    match v {
        Json::Array(a) => {
            proof {
                crate::json::lemma_array_view(a);
            }
            a
        },
        other => {
            let ghost ov = other@;
            let r = vec![other];
            assert(items_view(r@) =~= seq![ov]);
            r
        },
    }
}

/// The output of a list handler: `{data, items, total}` over `kept`.
pub open spec fn list_output(kept: Seq<JVal>) -> JVal {
    JVal::Obj(
        seq![("data"@, JVal::Arr(kept)), ("items"@, JVal::Arr(kept)), ("total"@, JVal::Num(kept.len() * SCALE))],
    )
}

fn list_output_exec(kept: Vec<Json>) -> (r: Json)
    ensures
        r@ == list_output(items_view(kept@)),
{
    let n = Num::from_count(kept.len());
    let mut copy: Vec<Json> = Vec::new();
    let mut i: usize = 0;
    while i < kept.len()
        invariant
            i <= kept.len(),
            copy.len() == i,
            items_view(copy@) == items_view(kept@).take(i as int),
        decreases kept.len() - i,
    {
        let x = kept[i].copy();
        let ghost before = copy@;
        assert(x@ == items_view(kept@)[i as int]);
        copy.push(x);
        proof {
            assert(copy@ == before.push(x));
            assert(items_view(copy@).len() == i + 1);
            assert forall|k: int| 0 <= k < i + 1 implies items_view(copy@)[k] == items_view(kept@).take(i + 1)[k] by {
                if k < i {
                    assert(items_view(before)[k] == items_view(kept@).take(i as int)[k]);
                }
            }
        }
        i = i + 1;
        assert(items_view(copy@) =~= items_view(kept@).take(i as int));
    }
    assert(items_view(kept@).take(kept.len() as int) =~= items_view(kept@));
    let ghost kv = items_view(kept@);
    let m = vec![mem("data", jarr(kept)), mem("items", jarr(copy)), mem("total", Json::Number(n))];
    assert(members_view(m@) =~= seq![("data"@, JVal::Arr(kv)), ("items"@, JVal::Arr(kv)), ("total"@, JVal::Num(kv.len() * SCALE))]);
    jobj(m)
}

// ---------------------------------------------------------------- filter

/// Does `s` end with one of the comma-separated, trimmed suffixes in `q`?
pub open spec fn has_extension(s: Seq<char>, q: Seq<char>) -> bool {
    exists|i: int| 0 <= i < split(q, ',').len() && ends_with(s, trim(#[trigger] split(q, ',')[i]))
}

/// Whether an item passes a filter node's test.
pub open spec fn item_passes(item: JVal, prop: Seq<char>, c: Seq<char>, q: Seq<char>) -> bool {
    let p = if prop.len() == 0 { Some(item) } else { walk_opt(item, split(prop, '.')) };
    if c == "exists"@ {
        p is Some && !(p.unwrap() is Null)
    } else if c == "notExists"@ {
        p is None || p.unwrap() is Null
    } else {
        let s = match p {
            Some(x) => text_of(x),
            None => Seq::empty(),
        };
        if c == "equals"@ {
            s == q
        } else if c == "notEquals"@ {
            s != q
        } else if c == "contains"@ {
            contains(s, q)
        } else if c == "regex"@ {
            regex_valid(q) && regex_finds(q, s)
        } else if c == "extension"@ {
            has_extension(s, q)
        } else {
            false
        }
    }
}

/// The items that pass, in order.
pub open spec fn filter_items(a: Seq<JVal>, prop: Seq<char>, c: Seq<char>, q: Seq<char>) -> Seq<JVal>
    decreases a.len(),
{
    if a.len() == 0 {
        Seq::empty()
    } else {
        filter_items(a.drop_last(), prop, c, q) + if item_passes(a.last(), prop, c, q) {
            seq![a.last()]
        } else {
            Seq::empty()
        }
    }
}

pub open spec fn filter_spec(n: NodeV, f: FlowV, rs: Seq<(Seq<char>, ResultV)>) -> ResultV {
    match primary(f, rs, n.id) {
        None => ok_result(n.id, list_output(Seq::empty())),
        Some(v) => ok_result(
            n.id,
            list_output(
                filter_items(
                    as_items(v),
                    str_or(n.data, "property"@, ""@),
                    str_or(n.data, "condition"@, "equals"@),
                    str_or(n.data, "value"@, ""@),
                ),
            ),
        ),
    }
}

fn has_extension_exec(s: &str, q: &str) -> (r: bool)
    ensures
        r == has_extension(s@, q@),
{
    let sc = chars_of(s);
    let qc = chars_of(q);
    let exts = split_chars(&qc, ',');
    let ghost ev = pieces_view(exts@);
    let mut i: usize = 0;
    while i < exts.len()
        invariant
            i <= exts.len(),
            ev == pieces_view(exts@),
            ev == split(q@, ','),
            sc@ == s@,
            forall|k: int| 0 <= k < i ==> !ends_with(s@, trim(#[trigger] ev[k])),
        decreases exts.len() - i,
    {
        let t = trim_chars(&exts[i]);
        if ends_with_chars(&sc, &t) {
            assert(ev[i as int] == exts@[i as int]@);
            return true;
        }
        i = i + 1;
    }
    false
}

/// Whether `item` passes the test of a filter configured by `prop`, `c` and `q`.
pub fn item_passes_exec(item: &Json, prop: &str, c: &str, q: &str) -> (r: bool)
    ensures
        r == item_passes(item@, prop@, c@, q@),
{
    let pc = chars_of(prop);
    let p: Option<Json> = if pc.len() == 0 {
        Some(item.copy())
    } else {
        lookup_path(item, prop)
    };
    let is_null = match &p {
        Some(Json::Null) => true,
        _ => false,
    };
    if text_eq(c, "exists") {
        p.is_some() && !is_null
    } else if text_eq(c, "notExists") {
        p.is_none() || is_null
    } else {
        let s = match &p {
            Some(x) => x.text(),
            None => String::new(),
        };
        let sc = chars_of(s.as_str());
        let qc = chars_of(q);
        if text_eq(c, "equals") {
            text_eq(s.as_str(), q)
        } else if text_eq(c, "notEquals") {
            !text_eq(s.as_str(), q)
        } else if text_eq(c, "contains") {
            contains_chars(&sc, &qc)
        } else if text_eq(c, "regex") {
            match regex_search(q, s.as_str()) {
                Some(b) => b,
                None => false,
            }
        } else if text_eq(c, "extension") {
            has_extension_exec(s.as_str(), q)
        } else {
            false
        }
    }
}

/// A filter node: keeps the items of its primary input (an array, or a single value)
/// that pass the configured test on the configured property.
pub fn run_filter(n: &Node, f: &Flow, rs: &Results) -> (r: ExecutionResult)
    ensures
        r@ == filter_spec(n@, f@, results_view(rs@)),
{
    let input = primary_exec(f, rs, n.id.as_str());
    match input {
        None => {
            let empty: Vec<Json> = Vec::new();
            assert(items_view(empty@) =~= Seq::<JVal>::empty());
            ok_exec(&n.id, list_output_exec(empty))
        },
        Some(v) => {
            let prop = str_field(&n.data, "property", "");
            let c = str_field(&n.data, "condition", "equals");
            let q = str_field(&n.data, "value", "");
            let items = as_items_exec(v);
            let ghost iv = items_view(items@);
            let mut kept: Vec<Json> = Vec::new();
            let mut i: usize = 0;
            assert(iv.take(0) =~= Seq::<JVal>::empty());
            while i < items.len()
                invariant
                    i <= items.len(),
                    iv == items_view(items@),
                    items_view(kept@) == filter_items(iv.take(i as int), prop@, c@, q@),
                decreases items.len() - i,
            {
                proof {
                    assert(iv.take(i + 1).drop_last() =~= iv.take(i as int));
                }
                if item_passes_exec(&items[i], prop.as_str(), c.as_str(), q.as_str()) {
                    kept.push(items[i].copy());
                }
                i = i + 1;
                assert(items_view(kept@) =~= filter_items(iv.take(i as int), prop@, c@, q@));
            }
            assert(iv.take(items.len() as int) =~= iv);
            ok_exec(&n.id, list_output_exec(kept))
        },
    }
}

// ---------------------------------------------------------------- arrayMap

/// The non-null values at `path` in each item, in order.
pub open spec fn map_items(a: Seq<JVal>, path: Seq<char>) -> Seq<JVal>
    decreases a.len(),
{
    if a.len() == 0 {
        Seq::empty()
    } else {
        map_items(a.drop_last(), path) + if extract(a.last(), path) is Null {
            Seq::empty()
        } else {
            seq![extract(a.last(), path)]
        }
    }
}

pub open spec fn array_map_spec(n: NodeV, f: FlowV, rs: Seq<(Seq<char>, ResultV)>) -> ResultV {
    match primary(f, rs, n.id) {
        None => ok_result(n.id, list_output(Seq::empty())),
        Some(v) => ok_result(n.id, list_output(map_items(as_items(v), str_or(n.data, "path"@, ""@)))),
    }
}

/// An arrayMap node: the value at the configured path in each item of its primary
/// input, nulls dropped.
pub fn run_array_map(n: &Node, f: &Flow, rs: &Results) -> (r: ExecutionResult)
    ensures
        r@ == array_map_spec(n@, f@, results_view(rs@)),
{
    let input = primary_exec(f, rs, n.id.as_str());
    match input {
        None => {
            let empty: Vec<Json> = Vec::new();
            assert(items_view(empty@) =~= Seq::<JVal>::empty());
            ok_exec(&n.id, list_output_exec(empty))
        },
        Some(v) => {
            let path = str_field(&n.data, "path", "");
            let items = as_items_exec(v);
            let ghost iv = items_view(items@);
            let mut out: Vec<Json> = Vec::new();
            let mut i: usize = 0;
            assert(iv.take(0) =~= Seq::<JVal>::empty());
            while i < items.len()
                invariant
                    i <= items.len(),
                    iv == items_view(items@),
                    items_view(out@) == map_items(iv.take(i as int), path@),
                decreases items.len() - i,
            {
                proof {
                    assert(iv.take(i + 1).drop_last() =~= iv.take(i as int));
                }
                let x = extract_exec(&items[i], path.as_str());
                match x {
                    Json::Null => {},
                    _ => {
                        out.push(x);
                    },
                }
                i = i + 1;
                assert(items_view(out@) =~= map_items(iv.take(i as int), path@));
            }
            assert(iv.take(items.len() as int) =~= iv);
            ok_exec(&n.id, list_output_exec(out))
        },
    }
}

/// The `total` that filter and arrayMap report is the number of items they report.
pub proof fn lemma_list_total(kept: Seq<JVal>)
    ensures
        jget(list_output(kept), "total"@) == Some(JVal::Num(kept.len() * SCALE)),
        jget(list_output(kept), "items"@) == Some(JVal::Arr(kept)),
{
    reveal_with_fuel(crate::json::member, 4);
    reveal_strlit("data");
    reveal_strlit("items");
    reveal_strlit("total");
    assert("data"@ != "total"@) by {
        assert("data"@[0] != "total"@[0]);
    }
    assert("items"@ != "total"@) by {
        assert("items"@[0] != "total"@[0]);
    }
    assert("data"@ != "items"@) by {
        assert("data"@[0] != "items"@[0]);
    }
}

} // verus!
