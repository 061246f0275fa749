//! The `scraper` node: reads records out of HTML by CSS selectors. Parsing and
//! selecting are the scraper crate's; which rules apply, how text is joined and how
//! records are assembled is this module's.

use vstd::prelude::*;
use crate::json::{
    Json,
    JVal,
    jget,
    jobj,
    jarr,
    mem,
    members_view,
    items_view,
    insert_member,
    insert_member_exec,
    text_eq,
};
use crate::graph::{
    Node,
    Flow,
    ExecutionResult,
    NodeV,
    FlowV,
    ResultV,
    results_view,
    result_of,
    parents,
    first_parent,
};
use crate::nodes::{Results, str_or, str_field, ok_result, ok_exec, result_lookup};
use crate::text::{chars_of, string_of, trim, trim_chars, push_str};

verus! {

/// How many elements of the document match the selector (none when the selector
/// does not parse).
pub uninterp spec fn match_count(html: Seq<char>, sel: Seq<char>) -> nat;

/// The text pieces of the first element matching `inner` inside the `k`-th element
/// matching `container`, if there is one.
pub uninterp spec fn texts_within(html: Seq<char>, container: Seq<char>, k: nat, inner: Seq<char>) -> Option<Seq<Seq<char>>>;

/// Attribute `name` of the first element matching `inner` inside the `k`-th element
/// matching `container`: nothing when there is no such element, else the value if set.
pub uninterp spec fn attr_within(html: Seq<char>, container: Seq<char>, k: nat, inner: Seq<char>, name: Seq<char>) -> Option<Option<Seq<char>>>;

/// The text pieces of the first element of the document matching `sel`, if any.
pub uninterp spec fn texts_at_root(html: Seq<char>, sel: Seq<char>) -> Option<Seq<Seq<char>>>;

/// Attribute `name` of the first element of the document matching `sel`: nothing when
/// there is no such element, else the value if set.
pub uninterp spec fn attr_at_root(html: Seq<char>, sel: Seq<char>, name: Seq<char>) -> Option<Option<Seq<char>>>;

pub open spec fn texts_view(v: Vec<String>) -> Seq<Seq<char>> {
    Seq::new(v.len() as nat, |i: int| v@[i]@)
}

pub open spec fn opt_texts(o: Option<Vec<String>>) -> Option<Seq<Seq<char>>> {
    match o {
        Some(v) => Some(texts_view(v)),
        None => None,
    }
}

pub open spec fn opt_attr(o: Option<Option<String>>) -> Option<Option<Seq<char>>> {
    match o {
        Some(Some(a)) => Some(Some(a@)),
        Some(None) => Some(None),
        None => None,
    }
}

/// Relies on `scraper::Html::parse_document`, `scraper::Selector::parse` and
/// `Html::select`: the number of matching elements; a selector that does not parse
/// matches nothing. The result depends on the two texts alone.
#[verifier::external_body]
fn count_matches(html: &str, sel: &str) -> (r: usize)
    ensures
        r as nat == match_count(html@, sel@),
{
    let doc = scraper::Html::parse_document(html);
    scraper::Selector::parse(sel).map_or(0, |s| doc.select(&s).count())
}

/// Relies on scraper's `parse_document`, `Selector::parse`, `Html::select` (document
/// order), `ElementRef::select` and `ElementRef::text` (descendant text nodes in order).
#[verifier::external_body]
fn first_texts_within(html: &str, container: &str, k: usize, inner: &str) -> (r: Option<Vec<String>>)
    ensures
        opt_texts(r) == texts_within(html@, container@, k as nat, inner@),
{
    let doc = scraper::Html::parse_document(html);
    let (Ok(c), Ok(i)) = (scraper::Selector::parse(container), scraper::Selector::parse(inner)) else {
        return None;
    };
    let el = doc.select(&c).nth(k)?.select(&i).next()?;
    Some(el.text().map(|t| t.to_string()).collect())
}

/// Relies on scraper's `parse_document`, `Selector::parse`, `Html::select`,
/// `ElementRef::select` and `ElementRef::attr`.
#[verifier::external_body]
fn first_attr_within(html: &str, container: &str, k: usize, inner: &str, name: &str) -> (r: Option<Option<String>>)
    ensures
        opt_attr(r) == attr_within(html@, container@, k as nat, inner@, name@),
{
    let doc = scraper::Html::parse_document(html);
    let (Ok(c), Ok(i)) = (scraper::Selector::parse(container), scraper::Selector::parse(inner)) else {
        return None;
    };
    let el = doc.select(&c).nth(k)?.select(&i).next()?;
    Some(el.attr(name).map(|v| v.to_string()))
}

/// Relies on scraper's `parse_document`, `Selector::parse`, `Html::select` and
/// `ElementRef::text`.
#[verifier::external_body]
fn first_texts_at_root(html: &str, sel: &str) -> (r: Option<Vec<String>>)
    ensures
        opt_texts(r) == texts_at_root(html@, sel@),
{
    let doc = scraper::Html::parse_document(html);
    let s = scraper::Selector::parse(sel).ok()?;
    let el = doc.select(&s).next()?;
    Some(el.text().map(|t| t.to_string()).collect())
}

/// Relies on scraper's `parse_document`, `Selector::parse`, `Html::select` and
/// `ElementRef::attr`.
#[verifier::external_body]
fn first_attr_at_root(html: &str, sel: &str, name: &str) -> (r: Option<Option<String>>)
    ensures
        opt_attr(r) == attr_at_root(html@, sel@, name@),
{
    let doc = scraper::Html::parse_document(html);
    let s = scraper::Selector::parse(sel).ok()?;
    let el = doc.select(&s).next()?;
    Some(el.attr(name).map(|v| v.to_string()))
}

/// Pieces joined with single spaces.
pub open spec fn join_spaced(p: Seq<Seq<char>>) -> Seq<char>
    decreases p.len(),
{
    if p.len() == 0 {
        Seq::empty()
    } else if p.len() == 1 {
        p[0]
    } else {
        join_spaced(p.drop_last()) + seq![' '] + p.last()
    }
}

/// The visible text of an element: its text pieces joined by spaces, trimmed.
pub fn visible_text(pieces: &Vec<String>) -> (r: String)
    ensures
        r@ == trim(join_spaced(Seq::new(pieces.len() as nat, |i: int| pieces@[i]@))),
{
    let ghost pv = Seq::new(pieces.len() as nat, |i: int| pieces@[i]@);
    let mut out: Vec<char> = Vec::new();
    let mut i: usize = 0;
    assert(pv.take(0) =~= Seq::<Seq<char>>::empty());
    while i < pieces.len()
        invariant
            i <= pieces.len(),
            pv == Seq::new(pieces.len() as nat, |i: int| pieces@[i]@),
            out@ == join_spaced(pv.take(i as int)),
        decreases pieces.len() - i,
    {
        proof {
            assert(pv.take(i + 1).drop_last() =~= pv.take(i as int));
            assert(pv.take(i + 1).last() == pieces@[i as int]@);
        }
        if i > 0 {
            out.push(' ');
        }
        push_str(&mut out, pieces[i].as_str());
        i = i + 1;
        proof {
            if i == 1 {
                assert(out@ =~= join_spaced(pv.take(i as int)));
            }
        }
    }
    assert(pv.take(pieces.len() as int) =~= pv);
    string_of(trim_chars(&out).as_slice())
}

/// One extraction rule of a scraper node.
pub struct Rule {
    pub selector: String,
    pub attribute: String,
    pub key: String,
}

pub struct RuleV {
    pub selector: Seq<char>,
    pub attribute: Seq<char>,
    pub key: Seq<char>,
}

impl View for Rule {
    type V = RuleV;

    open spec fn view(&self) -> RuleV {
        RuleV { selector: self.selector@, attribute: self.attribute@, key: self.key@ }
    }
}

/// A rule as configured: `selector` (default empty), `attribute` (default `"text"`),
/// `key` (default `"value"`).
pub open spec fn rule_of(v: JVal) -> RuleV {
    RuleV {
        selector: str_or(v, "selector"@, ""@),
        attribute: str_or(v, "attribute"@, "text"@),
        key: str_or(v, "key"@, "value"@),
    }
}

/// The configured rules: the items of the `rules` array, or none.
pub open spec fn rules_of(data: JVal) -> Seq<RuleV> {
    match jget(data, "rules"@) {
        Some(JVal::Arr(a)) => Seq::new(a.len(), |i: int| rule_of(a[i])),
        _ => Seq::empty(),
    }
}

fn rules_exec(data: &Json) -> (r: Vec<Rule>)
    ensures
        r@.len() == rules_of(data@).len(),
        forall|i: int| 0 <= i < r.len() ==> (#[trigger] r@[i])@ == rules_of(data@)[i],
{
    let mut r: Vec<Rule> = Vec::new();
    match data.get("rules") {
        Some(Json::Array(a)) => {
            proof {
                crate::json::lemma_array_view(*a);
            }
            let mut i: usize = 0;
            while i < a.len()
                invariant
                    i <= a.len(),
                    r.len() == i,
                    jget(data@, "rules"@) == Some(JVal::Arr(items_view(a@))),
                    forall|k: int| 0 <= k < i ==> (#[trigger] r@[k])@ == rules_of(data@)[k],
                decreases a.len() - i,
            {
                let rule = Rule {
                    selector: str_field(&a[i], "selector", ""),
                    attribute: str_field(&a[i], "attribute", "text"),
                    key: str_field(&a[i], "key", "value"),
                };
                r.push(rule);
                i = i + 1;
            }
        },
        _ => {},
    }
    r
}

/// The record that rules give, from what each rule found (`None`: nothing matched):
/// each found value set under its rule's key, later rules winning.
pub open spec fn record_of(rules: Seq<RuleV>, found: Seq<Option<Seq<char>>>) -> Seq<(Seq<char>, JVal)>
    decreases rules.len(),
{
    if rules.len() == 0 || found.len() != rules.len() {
        Seq::empty()
    } else {
        let prev = record_of(rules.drop_last(), found.drop_last());
        match found.last() {
            Some(v) => insert_member(prev, rules.last().key, JVal::Str(v)),
            None => prev,
        }
    }
}

pub open spec fn found_view(found: Seq<Option<String>>) -> Seq<Option<Seq<char>>> {
    Seq::new(found.len(), |i: int| match found[i] {
        Some(s) => Some(s@),
        None => None,
    })
}

/// The record that `rules` give from what each of them found.
pub fn build_record(rules: &Vec<Rule>, found: Vec<Option<String>>) -> (r: Vec<(String, Json)>)
    requires
        found.len() == rules.len(),
    ensures
        members_view(r@) == record_of(
            Seq::new(rules.len() as nat, |i: int| rules@[i]@),
            found_view(found@),
        ),
{
    let ghost rv = Seq::new(rules.len() as nat, |i: int| rules@[i]@);
    let ghost fv = found_view(found@);
    let mut acc: Vec<(String, Json)> = Vec::new();
    let mut i: usize = 0;
    assert(members_view(acc@) =~= record_of(rv.take(0), fv.take(0)));
    while i < rules.len()
        invariant
            i <= rules.len(),
            found.len() == rules.len(),
            rv == Seq::new(rules.len() as nat, |i: int| rules@[i]@),
            fv == found_view(found@),
            members_view(acc@) == record_of(rv.take(i as int), fv.take(i as int)),
        decreases rules.len() - i,
    {
        proof {
            assert(rv.take(i + 1).drop_last() =~= rv.take(i as int));
            assert(fv.take(i + 1).drop_last() =~= fv.take(i as int));
            assert(rv.take(i + 1).last() == rules@[i as int]@);
        }
        match &found[i] {
            Some(v) => {
                insert_member_exec(&mut acc, rules[i].key.clone(), Json::Str(v.clone()));
            },
            None => {},
        }
        i = i + 1;
    }
    assert(rv.take(rules.len() as int) =~= rv);
    assert(fv.take(rules.len() as int) =~= fv);
    acc
}

/// The HTML a scraper node reads: its first predecessor's `data` text, else that
/// result's whole output when it is text, else nothing.
pub open spec fn scrape_input(f: FlowV, rs: Seq<(Seq<char>, ResultV)>, id: Seq<char>) -> Seq<char> {
    let ps = parents(f.edges, id);
    if ps.len() == 0 {
        Seq::empty()
    } else {
        match result_of(rs, ps[0]) {
            Some(r) => match jget(r.output, "data"@) {
                Some(JVal::Str(s)) => s,
                _ => match r.output {
                    JVal::Str(s) => s,
                    _ => Seq::empty(),
                },
            },
            None => Seq::empty(),
        }
    }
}

fn scrape_input_exec(f: &Flow, rs: &Results, id: &str) -> (r: String)
    ensures
        r@ == scrape_input(f@, results_view(rs@), id@),
{
    match first_parent(f, id) {
        None => String::new(),
        Some(e) => match result_lookup(rs, f.edges[e].source.as_str()) {
            None => String::new(),
            Some(res) => match res.output.get("data") {
                Some(Json::Str(s)) => s.clone(),
                _ => match &res.output {
                    Json::Str(s) => s.clone(),
                    _ => String::new(),
                },
            },
        },
    }
}

/// What a rule finds, from the text pieces or the attribute of its element: the
/// trimmed, space-joined text for attribute `"text"`, else the attribute's value
/// (empty when unset); nothing when no element matched.
pub open spec fn rule_found(
    attribute: Seq<char>,
    texts: Option<Seq<Seq<char>>>,
    attr: Option<Option<Seq<char>>>,
) -> Option<Seq<char>> {
    if attribute == "text"@ {
        match texts {
            Some(t) => Some(trim(join_spaced(t))),
            None => None,
        }
    } else {
        match attr {
            Some(Some(a)) => Some(a),
            Some(None) => Some(Seq::empty()),
            None => None,
        }
    }
}

/// What each rule finds inside the `k`-th container match.
pub open spec fn found_in_match(html: Seq<char>, c: Seq<char>, k: nat, rules: Seq<RuleV>) -> Seq<Option<Seq<char>>> {
    Seq::new(
        rules.len(),
        |j: int|
            rule_found(
                rules[j].attribute,
                texts_within(html, c, k, rules[j].selector),
                attr_within(html, c, k, rules[j].selector, rules[j].attribute),
            ),
    )
}

/// What each rule finds in the whole document.
pub open spec fn found_at_root(html: Seq<char>, rules: Seq<RuleV>) -> Seq<Option<Seq<char>>> {
    Seq::new(
        rules.len(),
        |j: int|
            rule_found(
                rules[j].attribute,
                texts_at_root(html, rules[j].selector),
                attr_at_root(html, rules[j].selector, rules[j].attribute),
            ),
    )
}

/// The non-empty records of the first `n` container matches, in document order.
pub open spec fn records_from(html: Seq<char>, c: Seq<char>, rules: Seq<RuleV>, n: nat) -> Seq<JVal>
    decreases n,
{
    if n == 0 {
        Seq::empty()
    } else {
        let rec = record_of(rules, found_in_match(html, c, (n - 1) as nat, rules));
        records_from(html, c, rules, (n - 1) as nat) + if rec.len() > 0 {
            seq![JVal::Obj(rec)]
        } else {
            Seq::empty()
        }
    }
}

/// The records a scraper node configured by `data` reads from `html`: one per match
/// of the container selector when one is set, else one from the whole document;
/// empty records are dropped.
pub open spec fn scrape_records(data: JVal, html: Seq<char>) -> Seq<JVal> {
    let rules = rules_of(data);
    let c = str_or(data, "container_selector"@, ""@);
    if c.len() > 0 {
        records_from(html, c, rules, match_count(html, c))
    } else {
        let rec = record_of(rules, found_at_root(html, rules));
        if rec.len() > 0 { seq![JVal::Obj(rec)] } else { Seq::empty() }
    }
}

/// The output of a scraper node whose input is not empty: `{data, items}` over the records.
pub open spec fn scrape_output(items: Seq<JVal>) -> JVal {
    JVal::Obj(seq![("data"@, JVal::Arr(items)), ("items"@, JVal::Arr(items))])
}

pub open spec fn scraper_spec(n: NodeV, f: FlowV, rs: Seq<(Seq<char>, ResultV)>) -> ResultV {
    let html = scrape_input(f, rs, n.id);
    if html.len() == 0 {
        ok_result(n.id, JVal::Obj(seq![("items"@, JVal::Arr(Seq::empty()))]))
    } else {
        ok_result(n.id, scrape_output(scrape_records(n.data, html)))
    }
}

/// What each rule finds, in the `k`-th container match or (with `k` absent) the document.
fn find_all(html: &str, c: &str, k: Option<usize>, rules: &Vec<Rule>) -> (r: Vec<Option<String>>)
    ensures
        r.len() == rules.len(),
        found_view(r@) == match k {
            Some(k) => found_in_match(html@, c@, k as nat, Seq::new(rules.len() as nat, |i: int| rules@[i]@)),
            None => found_at_root(html@, Seq::new(rules.len() as nat, |i: int| rules@[i]@)),
        },
{
    let ghost rv = Seq::new(rules.len() as nat, |i: int| rules@[i]@);
    let ghost want = match k {
        Some(k) => found_in_match(html@, c@, k as nat, rv),
        None => found_at_root(html@, rv),
    };
    let mut found: Vec<Option<String>> = Vec::new();
    let mut j: usize = 0;
    while j < rules.len()
        invariant
            j <= rules.len(),
            found.len() == j,
            rv == Seq::new(rules.len() as nat, |i: int| rules@[i]@),
            want == match k {
                Some(k) => found_in_match(html@, c@, k as nat, rv),
                None => found_at_root(html@, rv),
            },
            forall|q: int| 0 <= q < j ==> found_view(found@)[q] == want[q],
        decreases rules.len() - j,
    {
        let rule = &rules[j];
        let v: Option<String> = if text_eq(rule.attribute.as_str(), "text") {
            let texts = match k {
                Some(k) => first_texts_within(html, c, k, rule.selector.as_str()),
                None => first_texts_at_root(html, rule.selector.as_str()),
            };
            match texts {
                Some(t) => Some(visible_text(&t)),
                None => None,
            }
        } else {
            let a = match k {
                Some(k) => first_attr_within(html, c, k, rule.selector.as_str(), rule.attribute.as_str()),
                None => first_attr_at_root(html, rule.selector.as_str(), rule.attribute.as_str()),
            };
            match a {
                Some(Some(x)) => Some(x),
                Some(None) => Some(String::new()),
                None => None,
            }
        };
        proof {
            assert(rv[j as int] == rule@);
        }
        let ghost before = found@;
        found.push(v);
        proof {
            assert forall|q: int| 0 <= q < j + 1 implies found_view(found@)[q] == want[q] by {
                if q < j {
                    assert(found@[q] == before[q]);
                }
            }
        }
        j = j + 1;
    }
    assert(found_view(found@) =~= want);
    found
}

/// A scraper node: parses its input as HTML and extracts one record per match of the
/// container selector, or a single record from the whole document when none is set.
pub fn run_scraper(n: &Node, f: &Flow, rs: &Results) -> (r: ExecutionResult)
    ensures
        r@ == scraper_spec(n@, f@, results_view(rs@)),
{
    let html = scrape_input_exec(f, rs, n.id.as_str());
    let hc = chars_of(html.as_str());
    if hc.len() == 0 {
        let empty: Vec<Json> = Vec::new();
        assert(items_view(empty@) =~= Seq::<JVal>::empty());
        let m = vec![mem("items", jarr(empty))];
        assert(members_view(m@) =~= seq![("items"@, JVal::Arr(Seq::empty()))]);
        return ok_exec(&n.id, jobj(m));
    }
    let rules = rules_exec(&n.data);
    let ghost rv = Seq::new(rules.len() as nat, |i: int| rules@[i]@);
    assert(rv =~= rules_of(n@.data));
    let container = str_field(&n.data, "container_selector", "");
    let cc = chars_of(container.as_str());
    let mut records: Vec<Json> = Vec::new();
    if cc.len() > 0 {
        let count = count_matches(html.as_str(), container.as_str());
        let mut k: usize = 0;
        assert(items_view(records@) =~= records_from(html@, container@, rv, 0));
        while k < count
            invariant
                k <= count,
                count as nat == match_count(html@, container@),
                rv == Seq::new(rules.len() as nat, |i: int| rules@[i]@),
                items_view(records@) == records_from(html@, container@, rv, k as nat),
            decreases count - k,
        {
            let found = find_all(html.as_str(), container.as_str(), Some(k), &rules);
            let rec = build_record(&rules, found);
            let ghost before = items_view(records@);
            if rec.len() > 0 {
                let o = jobj(rec);
                records.push(o);
                assert(items_view(records@) =~= before.push(o@));
            } else {
                assert(before + Seq::<JVal>::empty() =~= before);
            }
            k = k + 1;
        }
    } else {
        let found = find_all(html.as_str(), container.as_str(), None, &rules);
        let rec = build_record(&rules, found);
        if rec.len() > 0 {
            let o = jobj(rec);
            let ghost ov = o@;
            records.push(o);
            assert(items_view(records@) =~= seq![ov]);
        } else {
            assert(items_view(records@) =~= Seq::<JVal>::empty());
        }
    }
    let ghost items = items_view(records@);
    assert(items == scrape_records(n@.data, html@));
    let mut copy: Vec<Json> = Vec::new();
    let mut i: usize = 0;
    while i < records.len()
        invariant
            i <= records.len(),
            copy.len() == i,
            forall|q: int| 0 <= q < i ==> (#[trigger] copy@[q])@ == records@[q]@,
        decreases records.len() - i,
    {
        copy.push(records[i].copy());
        i = i + 1;
    }
    assert(items_view(copy@) =~= items);
    let m = vec![mem("data", jarr(records)), mem("items", jarr(copy))];
    assert(members_view(m@) =~= seq![("data"@, JVal::Arr(items)), ("items"@, JVal::Arr(items))]);
    ok_exec(&n.id, jobj(m))
}

} // verus!
