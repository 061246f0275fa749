//! The dispatch loop. A run holds a stack of node ids, a visit counter per id, the
//! results so far and the variable store; each step pops one id, runs its node, stores
//! the result and pushes the ids that the result's branch selects.
//!
//! HTTP nodes are not run here: a step that reaches one hands back the request, and
//! the run waits until the caller reports the outcome.

use vstd::prelude::*;
use crate::json::{Json, JVal, text_eq, text_lt, lt_chars, members_view};
use crate::graph::{
    Node,
    Flow,
    ExecutionResult,
    NodeV,
    EdgeV,
    FlowV,
    ResultV,
    opt_view,
    results_view,
    put_result,
    parents,
    outgoing,
    node_of,
    find_node,
    parents_exec,
};
use crate::nodes::{
    Results,
    passthrough_spec,
    run_passthrough,
    mapper_spec,
    run_mapper,
    debug_spec,
    run_debug,
    case_success_spec,
    run_case_success,
    case_fail_spec,
    run_case_fail,
    unknown_spec,
    run_unknown,
};
use crate::branching::{condition_spec, run_condition, loop_spec, run_loop, assert_spec, run_assert};
use crate::lists::{filter_spec, run_filter, array_map_spec, run_array_map};
use crate::variables::{
    capture_spec,
    capture_vars,
    run_capture,
    counter_spec,
    counter_vars,
    run_counter,
    input_spec,
    run_input,
    server_trigger_spec,
    run_server_trigger,
    server_response_spec,
    run_server_response,
};
use crate::scrape::{scraper_spec, run_scraper};
use crate::http::{
    HttpRequest,
    HttpOutcome,
    OutcomeV,
    request_spec,
    build_request,
    http_result_spec,
    http_result,
};

use crate::store::{VarStore, store_of};
use crate::text::chars_of;

verus! {

/// Visits of one id after which it is no longer run.
pub const VISIT_LIMIT: u64 = 10000;

#[derive(Debug, Clone, Copy, PartialEq, Eq, Structural)]
pub enum Kind {
    Condition,
    Loop,
    Capture,
    Counter,
    Input,
    Http,
    Debug,
    Passthrough,
    ServerTrigger,
    ServerResponse,
    Mapper,
    Scraper,
    Filter,
    ArrayMap,
    Assert,
    CaseSuccess,
    CaseFail,
    Unknown,
}

/// The handler that a node's type tag selects.
pub open spec fn kind_of(t: Seq<char>) -> Kind {
    if t == "condition"@ {
        Kind::Condition
    } else if t == "loop"@ {
        Kind::Loop
    } else if t == "capture"@ {
        Kind::Capture
    } else if t == "counter"@ {
        Kind::Counter
    } else if t == "input"@ {
        Kind::Input
    } else if t == "httpRequest"@ {
        Kind::Http
    } else if t == "debug"@ {
        Kind::Debug
    } else if t == "start"@ || t == "output"@ || t == "comment"@ || t == "group"@ || t == "display"@
        || t == "tabulize"@ || t == "valueselector"@ || t == "carousel"@ {
        Kind::Passthrough
    } else if t == "serverTrigger"@ {
        Kind::ServerTrigger
    } else if t == "serverResponse"@ {
        Kind::ServerResponse
    } else if t == "mapper"@ {
        Kind::Mapper
    } else if t == "scraper"@ {
        Kind::Scraper
    } else if t == "filter"@ {
        Kind::Filter
    } else if t == "arrayMap"@ {
        Kind::ArrayMap
    } else if t == "assert"@ {
        Kind::Assert
    } else if t == "caseSuccess"@ {
        Kind::CaseSuccess
    } else if t == "caseFail"@ {
        Kind::CaseFail
    } else {
        Kind::Unknown
    }
}

pub fn kind_exec(t: &str) -> (k: Kind)
    ensures
        k == kind_of(t@),
{
    if text_eq(t, "condition") {
        Kind::Condition
    } else if text_eq(t, "loop") {
        Kind::Loop
    } else if text_eq(t, "capture") {
        Kind::Capture
    } else if text_eq(t, "counter") {
        Kind::Counter
    } else if text_eq(t, "input") {
        Kind::Input
    } else if text_eq(t, "httpRequest") {
        Kind::Http
    } else if text_eq(t, "debug") {
        Kind::Debug
    } else if text_eq(t, "start") || text_eq(t, "output") || text_eq(t, "comment") || text_eq(t, "group")
        || text_eq(t, "display") || text_eq(t, "tabulize") || text_eq(t, "valueselector") || text_eq(
        t,
        "carousel",
    ) {
        Kind::Passthrough
    } else if text_eq(t, "serverTrigger") {
        Kind::ServerTrigger
    } else if text_eq(t, "serverResponse") {
        Kind::ServerResponse
    } else if text_eq(t, "mapper") {
        Kind::Mapper
    } else if text_eq(t, "scraper") {
        Kind::Scraper
    } else if text_eq(t, "filter") {
        Kind::Filter
    } else if text_eq(t, "arrayMap") {
        Kind::ArrayMap
    } else if text_eq(t, "assert") {
        Kind::Assert
    } else if text_eq(t, "caseSuccess") {
        Kind::CaseSuccess
    } else if text_eq(t, "caseFail") {
        Kind::CaseFail
    } else {
        Kind::Unknown
    }
}

/// The result of a node of any kind but `httpRequest` and `scraper`.
pub open spec fn handler_result(n: NodeV, f: FlowV, rs: Seq<(Seq<char>, ResultV)>, vars: Seq<(Seq<char>, JVal)>) -> ResultV {
    match kind_of(n.kind) {
        Kind::Condition => condition_spec(n, f, rs),
        Kind::Loop => loop_spec(n, f, rs),
        Kind::Capture => capture_spec(n, f, rs),
        Kind::Counter => counter_spec(n),
        Kind::Input => input_spec(n, vars),
        Kind::Debug => debug_spec(n, f, rs),
        Kind::Passthrough => passthrough_spec(n, f, rs),
        Kind::ServerTrigger => server_trigger_spec(n, vars),
        Kind::ServerResponse => server_response_spec(n, f, rs, vars),
        Kind::Mapper => mapper_spec(n, f, rs),
        Kind::Filter => filter_spec(n, f, rs),
        Kind::ArrayMap => array_map_spec(n, f, rs),
        Kind::Assert => assert_spec(n, f, rs),
        Kind::CaseSuccess => case_success_spec(n),
        Kind::CaseFail => case_fail_spec(n),
        Kind::Scraper => scraper_spec(n, f, rs),
        _ => unknown_spec(n),
    }
}

/// Whether `r` is the result that the node gives.
pub open spec fn result_ok(n: NodeV, f: FlowV, rs: Seq<(Seq<char>, ResultV)>, vars: Seq<(Seq<char>, JVal)>, r: ResultV) -> bool {
    r == handler_result(n, f, rs, vars)
}

/// The store after a node runs.
pub open spec fn handler_vars(n: NodeV, f: FlowV, rs: Seq<(Seq<char>, ResultV)>, vars: Seq<(Seq<char>, JVal)>) -> Seq<(Seq<char>, JVal)> {
    match kind_of(n.kind) {
        Kind::Capture => capture_vars(n, f, rs, vars),
        Kind::Counter => counter_vars(n, f, rs, vars),
        _ => vars,
    }
}

/// Runs a node that is not an HTTP node.
pub fn run_node(n: &Node, f: &Flow, rs: &Results, vars: &mut VarStore) -> (r: ExecutionResult)
    requires
        kind_of(n@.kind) != Kind::Http,
    ensures
        result_ok(n@, f@, results_view(rs@), old(vars)@, r@),
        final(vars)@ == handler_vars(n@, f@, results_view(rs@), old(vars)@),
{
    match kind_exec(n.node_type.as_str()) {
        Kind::Condition => run_condition(n, f, rs),
        Kind::Loop => run_loop(n, f, rs),
        Kind::Capture => run_capture(n, f, rs, vars),
        Kind::Counter => run_counter(n, f, rs, vars),
        Kind::Input => run_input(n, vars),
        Kind::Debug => run_debug(n, f, rs),
        Kind::Passthrough => run_passthrough(n, f, rs),
        Kind::ServerTrigger => run_server_trigger(n, vars),
        Kind::ServerResponse => run_server_response(n, f, rs, vars),
        Kind::Mapper => run_mapper(n, f, rs),
        Kind::Scraper => run_scraper(n, f, rs),
        Kind::Filter => run_filter(n, f, rs),
        Kind::ArrayMap => run_array_map(n, f, rs),
        Kind::Assert => run_assert(n, f, rs),
        Kind::CaseSuccess => run_case_success(n),
        Kind::CaseFail => run_case_fail(n),
        _ => run_unknown(n),
    }
}

/// `q` with `x` added in ascending order, unless it is there already.
pub open spec fn insert_sorted(q: Seq<Seq<char>>, x: Seq<char>) -> Seq<Seq<char>>
    decreases q.len(),
{
    if q.len() == 0 {
        seq![x]
    } else if q[0] == x {
        q
    } else if text_lt(x, q[0]) {
        seq![x] + q
    } else {
        seq![q[0]] + insert_sorted(q.drop_first(), x)
    }
}

/// Is node `n` where a run starts: no incoming edge, or a `start` node?
pub open spec fn is_entry(f: FlowV, n: NodeV) -> bool {
    parents(f.edges, n.id).len() == 0 || n.kind == "start"@
}

/// The ids a run starts from, among the first `k` nodes: sorted ascending, each once.
pub open spec fn initial_queue(f: FlowV, k: int) -> Seq<Seq<char>>
    decreases k,
{
    if k <= 0 || k > f.nodes.len() {
        Seq::empty()
    } else {
        let prev = initial_queue(f, k - 1);
        if is_entry(f, f.nodes[k - 1]) {
            insert_sorted(prev, f.nodes[k - 1].id)
        } else {
            prev
        }
    }
}

/// How many times `id` has been popped (saturating just above the limit).
pub open spec fn visits_of(vs: Seq<(Seq<char>, nat)>, id: Seq<char>) -> nat
    decreases vs.len(),
{
    if vs.len() == 0 {
        0
    } else if vs[0].0 == id {
        vs[0].1
    } else {
        visits_of(vs.drop_first(), id)
    }
}

pub open spec fn bumped(c: nat) -> nat {
    if c + 1 > VISIT_LIMIT + 1 { (VISIT_LIMIT + 1) as nat } else { c + 1 }
}

/// The counters after one more visit of `id`.
pub open spec fn bump(vs: Seq<(Seq<char>, nat)>, id: Seq<char>) -> Seq<(Seq<char>, nat)>
    decreases vs.len(),
{
    if vs.len() == 0 {
        seq![(id, 1nat)]
    } else if vs[0].0 == id {
        vs.update(0, (id, bumped(vs[0].1)))
    } else {
        seq![vs[0]] + bump(vs.drop_first(), id)
    }
}

/// Does edge `e` fire for a result with active handle `h`? All edges fire when there is none.
pub open spec fn selected(e: EdgeV, h: Option<Seq<char>>) -> bool {
    h is None || e.handle == h
}

/// The targets pushed after node `id` gives a result with handle `h`: those of its
/// outgoing edges that fire, in edge order.
pub open spec fn dispatched(edges: Seq<EdgeV>, id: Seq<char>, h: Option<Seq<char>>) -> Seq<Seq<char>>
    decreases edges.len(),
{
    if edges.len() == 0 {
        Seq::empty()
    } else {
        dispatched(edges.drop_last(), id, h) + if edges.last().source == id && selected(edges.last(), h) {
            seq![edges.last().target]
        } else {
            Seq::empty()
        }
    }
}

/// The state of one run.
pub struct Run {
    pub queue: Vec<String>,
    pub visits: Vec<(String, u64)>,
    pub results: Results,
    pub vars: VarStore,
    pub pending: Option<String>,
}

pub struct RunV {
    pub queue: Seq<Seq<char>>,
    pub visits: Seq<(Seq<char>, nat)>,
    pub results: Seq<(Seq<char>, ResultV)>,
    pub vars: Seq<(Seq<char>, JVal)>,
    pub pending: Option<Seq<char>>,
}

pub open spec fn ids_view(q: Seq<String>) -> Seq<Seq<char>> {
    Seq::new(q.len(), |i: int| q[i]@)
}

pub open spec fn visits_view(v: Seq<(String, u64)>) -> Seq<(Seq<char>, nat)> {
    Seq::new(v.len(), |i: int| (v[i].0@, v[i].1 as nat))
}

impl View for Run {
    type V = RunV;

    open spec fn view(&self) -> RunV {
        RunV {
            queue: ids_view(self.queue@),
            visits: visits_view(self.visits@),
            results: results_view(self.results@),
            vars: self.vars@,
            pending: opt_view(self.pending),
        }
    }
}

/// The state a run of `f` starts in.
pub open spec fn init_state(f: FlowV, vars: Seq<(Seq<char>, JVal)>) -> RunV {
    RunV {
        queue: initial_queue(f, f.nodes.len() as int),
        visits: Seq::empty(),
        results: Seq::empty(),
        vars: store_of(vars),
        pending: None,
    }
}

/// Nothing is left to run and nothing is awaited.
pub open spec fn finished(s: RunV) -> bool {
    s.queue.len() == 0 && s.pending is None
}

/// The state after a node's result `r` is stored (and the store became `vars`): a loop
/// that continues is pushed again, then the targets that the result's branch selects.
pub open spec fn after_result(f: FlowV, s: RunV, n: NodeV, r: ResultV, vars: Seq<(Seq<char>, JVal)>) -> RunV {
    RunV {
        queue: s.queue + (if kind_of(n.kind) == Kind::Loop && r.handle == Some("body"@) {
            seq![n.id]
        } else {
            Seq::empty()
        }) + dispatched(f.edges, n.id, r.handle),
        visits: s.visits,
        results: put_result(s.results, n.id, r),
        vars,
        pending: None,
    }
}

/// The state after the top id is popped and counted, before anything runs.
pub open spec fn popped(s: RunV) -> RunV {
    RunV {
        queue: s.queue.drop_last(),
        visits: bump(s.visits, s.queue.last()),
        results: s.results,
        vars: s.vars,
        pending: s.pending,
    }
}

/// One step of a run: `s2` may follow `s`.
pub open spec fn step_rel(f: FlowV, s: RunV, s2: RunV) -> bool {
    if s.pending is Some || s.queue.len() == 0 {
        s2 == s
    } else {
        let id = s.queue.last();
        let base = popped(s);
        if visits_of(s.visits, id) + 1 > VISIT_LIMIT {
            s2 == base
        } else {
            match node_of(f.nodes, id) {
                None => s2 == base,
                Some(n) => if kind_of(n.kind) == Kind::Http {
                    s2 == RunV { pending: Some(id), ..base }
                } else {
                    exists|r: ResultV|
                        result_ok(n, f, s.results, s.vars, r) && s2 == after_result(
                            f,
                            base,
                            n,
                            r,
                            handler_vars(n, f, s.results, s.vars),
                        )
                },
            }
        }
    }
}

/// `s2` is reached from `s` in `k` steps.
pub open spec fn reach(f: FlowV, s: RunV, s2: RunV, k: nat) -> bool
    decreases k,
{
    if k == 0 {
        s2 == s
    } else {
        exists|m: RunV| step_rel(f, s, m) && reach(f, m, s2, (k - 1) as nat)
    }
}

/// The state after an HTTP node's outcome arrives.
pub open spec fn http_done(f: FlowV, s: RunV, o: OutcomeV) -> RunV {
    match s.pending {
        None => s,
        Some(id) => match node_of(f.nodes, id) {
            None => RunV { pending: None, ..s },
            Some(n) => after_result(f, RunV { pending: None, ..s }, n, http_result_spec(id, o), s.vars),
        },
    }
}

pub proof fn lemma_reach_extend(f: FlowV, a: RunV, b: RunV, c: RunV, k: nat)
    requires
        reach(f, a, b, k),
        step_rel(f, b, c),
    ensures
        reach(f, a, c, k + 1),
    decreases k,
{
    if k == 0 {
        assert(reach(f, c, c, 0));
    } else {
        let m = choose|m: RunV| step_rel(f, a, m) && reach(f, m, b, (k - 1) as nat);
        lemma_reach_extend(f, m, b, c, (k - 1) as nat);
    }
}

/// What the run can still spend: for each listed node, the visits left below the limit.
pub open spec fn budget(nodes: Seq<NodeV>, vs: Seq<(Seq<char>, nat)>) -> nat
    decreases nodes.len(),
{
    if nodes.len() == 0 {
        0
    } else {
        budget(nodes.drop_last(), vs) + if visits_of(vs, nodes.last().id) >= VISIT_LIMIT {
            0nat
        } else {
            (VISIT_LIMIT - visits_of(vs, nodes.last().id)) as nat
        }
    }
}

proof fn lemma_bump_visits(vs: Seq<(Seq<char>, nat)>, id: Seq<char>, u: Seq<char>)
    ensures
        visits_of(bump(vs, id), u) == if u == id { bumped(visits_of(vs, id)) } else { visits_of(vs, u) },
    decreases vs.len(),
{
    if vs.len() == 0 {
        let b = seq![(id, 1nat)];
        assert(b[0] == (id, 1nat));
        assert(b.drop_first() =~= Seq::<(Seq<char>, nat)>::empty());
        assert(bump(vs, id) == b);
        assert(visits_of(b, u) == if u == id { 1nat } else { visits_of(b.drop_first(), u) });
        assert(visits_of(bump(vs, id), u) == if u == id { bumped(visits_of(vs, id)) } else { visits_of(vs, u) });
    } else if vs[0].0 != id {
        lemma_bump_visits(vs.drop_first(), id, u);
        let b = seq![vs[0]] + bump(vs.drop_first(), id);
        assert(b[0] == vs[0]);
        assert(b.drop_first() =~= bump(vs.drop_first(), id));
        assert(bump(vs, id) == b);
        assert(visits_of(bump(vs, id), u) == if u == id { bumped(visits_of(vs, id)) } else { visits_of(vs, u) });
    } else {
        let b = vs.update(0, (id, bumped(vs[0].1)));
        assert(b[0] == (id, bumped(vs[0].1)));
        assert(b.drop_first() =~= vs.drop_first());
        assert(bump(vs, id) == b);
        assert(visits_of(bump(vs, id), u) == if u == id { bumped(visits_of(vs, id)) } else { visits_of(vs, u) });
    }
}

proof fn lemma_budget_bump(nodes: Seq<NodeV>, vs: Seq<(Seq<char>, nat)>, id: Seq<char>)
    ensures
        budget(nodes, bump(vs, id)) <= budget(nodes, vs),
        visits_of(vs, id) < VISIT_LIMIT && node_of(nodes, id) is Some ==> budget(nodes, bump(vs, id))
            < budget(nodes, vs),
    decreases nodes.len(),
{
    if nodes.len() > 0 {
        lemma_budget_bump(nodes.drop_last(), vs, id);
        lemma_bump_visits(vs, id, nodes.last().id);
    }
}

proof fn lemma_visits_view_skip(v: Seq<(String, u64)>, id: Seq<char>, i: int)
    requires
        0 <= i <= v.len(),
        forall|j: int| 0 <= j < i ==> v[j].0@ != id,
    ensures
        visits_of(visits_view(v), id) == visits_of(visits_view(v).skip(i), id),
        bump(visits_view(v), id) == visits_view(v).take(i) + bump(visits_view(v).skip(i), id),
    decreases i,
{
    let vv = visits_view(v);
    if i == 0 {
        assert(vv.skip(0) =~= vv);
        assert(vv.take(0) + bump(vv, id) =~= bump(vv, id));
    } else {
        lemma_visits_view_skip(v.drop_first(), id, i - 1);
        assert(visits_view(v.drop_first()) =~= vv.drop_first());
        assert(vv.drop_first().skip(i - 1) =~= vv.skip(i));
        assert(vv.take(i) =~= seq![vv[0]] + vv.drop_first().take(i - 1));
    }
}

impl Run {
    /// Counts one more visit of `id`; returns the count before it.
    fn bump_exec(&mut self, id: &String) -> (c: u64)
        ensures
            c == visits_of(old(self)@.visits, id@),
            final(self)@ == (RunV { visits: bump(old(self)@.visits, id@), ..old(self)@ }),
    {
        let ghost v0 = self.visits@;
        let mut i: usize = 0;
        while i < self.visits.len()
            invariant
                i <= self.visits.len(),
                self.visits@ == v0,
                forall|j: int| 0 <= j < i ==> v0[j].0@ != id@,
            ensures
                i <= self.visits.len(),
                self.visits@ == v0,
                forall|j: int| 0 <= j < i ==> v0[j].0@ != id@,
                i < self.visits.len() ==> v0[i as int].0@ == id@,
            decreases self.visits.len() - i,
        {
            if text_eq(self.visits[i].0.as_str(), id.as_str()) {
                break;
            }
            i = i + 1;
        }
        proof {
            lemma_visits_view_skip(v0, id@, i as int);
        }
        let ghost vv = visits_view(v0);
        if i < self.visits.len() {
            let c = self.visits[i].1;
            let nc = if c >= VISIT_LIMIT + 1 { VISIT_LIMIT + 1 } else { c + 1 };
            let k = self.visits[i].0.clone();
            self.visits.set(i, (k, nc));
            proof {
                assert(vv.skip(i as int)[0] == vv[i as int]);
                assert(visits_view(self.visits@) =~= vv.take(i as int) + vv.skip(i as int).update(0, (id@, bumped(c as nat))));
            }
            c
        } else {
            self.visits.push((id.clone(), 1));
            proof {
                assert(vv.skip(i as int) =~= Seq::<(Seq<char>, nat)>::empty());
                assert(visits_view(self.visits@) =~= vv.take(i as int) + seq![(id@, 1nat)]);
            }
            0
        }
    }
}

proof fn lemma_insert_sorted_at(q: Seq<Seq<char>>, x: Seq<char>, i: int)
    requires
        0 <= i <= q.len(),
        forall|j: int| 0 <= j < i ==> q[j] != x && !text_lt(x, q[j]),
    ensures
        insert_sorted(q, x) == q.take(i) + insert_sorted(q.skip(i), x),
    decreases i,
{
    if i == 0 {
        assert(q.skip(0) =~= q);
        assert(q.take(0) + insert_sorted(q, x) =~= insert_sorted(q, x));
    } else {
        assert forall|j: int| 0 <= j < i - 1 implies q.drop_first()[j] != x && !text_lt(x, q.drop_first()[j]) by {
            assert(q.drop_first()[j] == q[j + 1]);
        }
        lemma_insert_sorted_at(q.drop_first(), x, i - 1);
        assert(q.drop_first().skip(i - 1) =~= q.skip(i));
        assert(q.take(i) =~= seq![q[0]] + q.drop_first().take(i - 1));
    }
}

fn insert_sorted_exec(q: &mut Vec<String>, x: String)
    ensures
        ids_view(final(q)@) == insert_sorted(ids_view(old(q)@), x@),
{
    let ghost qv = ids_view(q@);
    let xc = chars_of(x.as_str());
    let mut i: usize = 0;
    while i < q.len()
        invariant
            i <= q.len(),
            qv == ids_view(q@),
            xc@ == x@,
            forall|j: int| 0 <= j < i ==> qv[j] != x@ && !text_lt(x@, qv[j]),
        ensures
            i <= q.len(),
            qv == ids_view(q@),
            forall|j: int| 0 <= j < i ==> qv[j] != x@ && !text_lt(x@, qv[j]),
            i < q.len() ==> (qv[i as int] == x@ || text_lt(x@, qv[i as int])),
        decreases q.len() - i,
    {
        let other = chars_of(q[i].as_str());
        if text_eq(q[i].as_str(), x.as_str()) || lt_chars(&xc, &other) {
            break;
        }
        i = i + 1;
    }
    proof {
        lemma_insert_sorted_at(qv, x@, i as int);
    }
    if i < q.len() && text_eq(q[i].as_str(), x.as_str()) {
        proof {
            assert(qv.skip(i as int)[0] == qv[i as int]);
            assert(qv =~= qv.take(i as int) + qv.skip(i as int));
        }
    } else {
        let ghost xv = x@;
        q.insert(i, x);
        proof {
            if i < qv.len() {
                assert(qv.skip(i as int)[0] == qv[i as int]);
                assert(ids_view(q@) =~= qv.take(i as int) + (seq![xv] + qv.skip(i as int)));
            } else {
                assert(qv.skip(i as int) =~= Seq::<Seq<char>>::empty());
                assert(ids_view(q@) =~= qv.take(i as int) + seq![xv]);
            }
        }
    }
}

proof fn lemma_result_put_at(rs: Seq<(Seq<char>, ResultV)>, id: Seq<char>, r: ResultV, i: int)
    requires
        0 <= i <= rs.len(),
        forall|j: int| 0 <= j < i ==> rs[j].0 != id,
    ensures
        put_result(rs, id, r) == rs.take(i) + put_result(rs.skip(i), id, r),
    decreases i,
{
    if i == 0 {
        assert(rs.skip(0) =~= rs);
        assert(rs.take(0) + put_result(rs, id, r) =~= put_result(rs, id, r));
    } else {
        lemma_result_put_at(rs.drop_first(), id, r, i - 1);
        assert(rs.drop_first().skip(i - 1) =~= rs.skip(i));
        assert(rs.take(i) =~= seq![rs[0]] + rs.drop_first().take(i - 1));
    }
}

fn put_result_exec(rs: &mut Results, id: String, r: ExecutionResult)
    ensures
        results_view(final(rs)@) == put_result(results_view(old(rs)@), id@, r@),
{
    let ghost rv = results_view(rs@);
    let mut i: usize = 0;
    while i < rs.len()
        invariant
            i <= rs.len(),
            rv == results_view(rs@),
            forall|j: int| 0 <= j < i ==> rv[j].0 != id@,
        ensures
            i <= rs.len(),
            rv == results_view(rs@),
            forall|j: int| 0 <= j < i ==> rv[j].0 != id@,
            i < rs.len() ==> rv[i as int].0 == id@,
        decreases rs.len() - i,
    {
        if text_eq(rs[i].0.as_str(), id.as_str()) {
            break;
        }
        i = i + 1;
    }
    proof {
        lemma_result_put_at(rv, id@, r@, i as int);
    }
    let ghost (iv, rview) = (id@, r@);
    if i < rs.len() {
        rs.set(i, (id, r));
        proof {
            assert(rv.skip(i as int)[0] == rv[i as int]);
            assert(results_view(rs@) =~= rv.take(i as int) + rv.skip(i as int).update(0, (iv, rview)));
        }
    } else {
        rs.push((id, r));
        proof {
            assert(rv.skip(i as int) =~= Seq::<(Seq<char>, ResultV)>::empty());
            assert(results_view(rs@) =~= rv.take(i as int) + seq![(iv, rview)]);
        }
    }
}

/// Pushes the targets that a result with handle `h` selects among `id`'s edges.
fn dispatch_exec(f: &Flow, id: &str, h: &Option<String>, q: &mut Vec<String>)
    ensures
        ids_view(final(q)@) == ids_view(old(q)@) + dispatched(f@.edges, id@, opt_view(*h)),
{
    let ghost ev = f@.edges;
    let ghost q0 = ids_view(q@);
    let mut i: usize = 0;
    assert(q0 + dispatched(ev.take(0), id@, opt_view(*h)) =~= q0);
    while i < f.edges.len()
        invariant
            i <= f.edges.len(),
            ev == f@.edges,
            ev.len() == f.edges.len(),
            ids_view(q@) == q0 + dispatched(ev.take(i as int), id@, opt_view(*h)),
        decreases f.edges.len() - i,
    {
        proof {
            assert(ev.take(i + 1).drop_last() =~= ev.take(i as int));
            assert(ev[i as int] == f.edges@[i as int]@);
        }
        let e = &f.edges[i];
        let fires = match h {
            None => true,
            Some(hv) => match &e.source_handle {
                Some(sh) => text_eq(sh.as_str(), hv.as_str()),
                None => false,
            },
        };
        if text_eq(e.source.as_str(), id) && fires {
            let ghost before = ids_view(q@);
            q.push(e.target.clone());
            assert(ids_view(q@) =~= before.push(e.target@));
        }
        i = i + 1;
        assert(ids_view(q@) =~= q0 + dispatched(ev.take(i as int), id@, opt_view(*h)));
    }
    assert(ev.take(f.edges.len() as int) =~= ev);
}

proof fn lemma_node_of_id(nodes: Seq<NodeV>, id: Seq<char>)
    ensures
        node_of(nodes, id) is Some ==> node_of(nodes, id).unwrap().id == id,
    decreases nodes.len(),
{
    if nodes.len() > 0 && nodes.last().id != id {
        lemma_node_of_id(nodes.drop_last(), id);
    }
}

impl Run {
    /// A run of `f` from the given variables (a later duplicate name wins).
    pub fn start(f: &Flow, initial: Vec<(String, Json)>) -> (r: Run)
        ensures
            r@ == init_state(f@, members_view(initial@)),
    {
        let mut queue: Vec<String> = Vec::new();
        let mut i: usize = 0;
        assert(ids_view(queue@) =~= initial_queue(f@, 0));
        while i < f.nodes.len()
            invariant
                i <= f.nodes.len(),
                ids_view(queue@) == initial_queue(f@, i as int),
            decreases f.nodes.len() - i,
        {
            let n = &f.nodes[i];
            let ps = parents_exec(f, n.id.as_str());
            proof {
                assert(f@.nodes[i as int] == n@);
            }
            if ps.len() == 0 || text_eq(n.node_type.as_str(), "start") {
                insert_sorted_exec(&mut queue, n.id.clone());
            }
            i = i + 1;
        }
        let r = Run {
            queue,
            visits: Vec::new(),
            results: Vec::new(),
            vars: VarStore::from_entries(initial),
            pending: None,
        };
        assert(r@.visits =~= Seq::<(Seq<char>, nat)>::empty());
        assert(r@.results =~= Seq::<(Seq<char>, ResultV)>::empty());
        r
    }

    /// Nothing is left to run and nothing is awaited.
    pub fn is_finished(&self) -> (b: bool)
        ensures
            b == finished(self@),
    {
        self.queue.len() == 0 && self.pending.is_none()
    }

    /// Pops one id and runs its node, unless the run is finished or awaits an HTTP
    /// outcome. On reaching an HTTP node, returns the request it sends and waits.
    pub fn step(&mut self, f: &Flow) -> (r: Option<HttpRequest>)
        ensures
            step_rel(f@, old(self)@, final(self)@),
            r.is_some() == (old(self)@.pending is None && final(self)@.pending is Some),
            r.is_some() ==> r.unwrap()@ == request_spec(
                node_of(f@.nodes, final(self)@.pending.unwrap()).unwrap().data,
                final(self)@.vars,
            ),
            old(self)@.pending is None && old(self)@.queue.len() > 0 && final(self)@.pending is None
                ==> budget(f@.nodes, final(self)@.visits) < budget(f@.nodes, old(self)@.visits)
                || (budget(f@.nodes, final(self)@.visits) == budget(f@.nodes, old(self)@.visits)
                && final(self)@.queue.len() < old(self)@.queue.len()),
    {
        if self.pending.is_some() || self.queue.len() == 0 {
            return None;
        }
        let ghost s0 = self@;
        let id = self.queue.pop().unwrap();
        proof {
            assert(ids_view(self.queue@) =~= s0.queue.drop_last());
            assert(id@ == s0.queue.last());
            lemma_budget_bump(f@.nodes, s0.visits, id@);
        }
        let c = self.bump_exec(&id);
        assert(self@ == popped(s0));
        if c >= VISIT_LIMIT {
            return None;
        }
        match find_node(f, id.as_str()) {
            None => None,
            Some(k) => {
                let n = &f.nodes[k];
                proof {
                    lemma_node_of_id(f@.nodes, id@);
                }
                let kind = kind_exec(n.node_type.as_str());
                if kind == Kind::Http {
                    let req = build_request(&n.data, &self.vars);
                    self.pending = Some(id);
                    return Some(req);
                }
                proof {
                    assert(kind_of(n@.kind) != Kind::Http);
                }
                let ghost rs0 = self@.results;
                let ghost vars0 = self@.vars;
                let result = run_node(n, f, &self.results, &mut self.vars);
                let ghost rv = result@;
                let handle = match &result.active_handle {
                    Some(h) => Some(h.clone()),
                    None => None,
                };
                let is_loop = kind == Kind::Loop;
                let continues = match &handle {
                    Some(h) => text_eq(h.as_str(), "body"),
                    None => false,
                };
                put_result_exec(&mut self.results, id.clone(), result);
                let ghost q1 = ids_view(self.queue@);
                if is_loop && continues {
                    self.queue.push(id.clone());
                }
                proof {
                    assert(opt_view(handle) == rv.handle);
                    if is_loop && continues {
                        assert(ids_view(self.queue@) =~= q1 + seq![n@.id]);
                    } else {
                        assert(ids_view(self.queue@) =~= q1 + Seq::<Seq<char>>::empty());
                    }
                }
                dispatch_exec(f, id.as_str(), &handle, &mut self.queue);
                proof {
                    let s2 = after_result(f@, popped(s0), n@, rv, handler_vars(n@, f@, rs0, vars0));
                    assert(self@.queue =~= s2.queue);
                    assert(self@ == s2);
                    assert(result_ok(n@, f@, s0.results, s0.vars, rv));
                }
                None
            },
        }
    }

    /// Runs steps until the run is finished or awaits an HTTP outcome; in the latter
    /// case returns the request to send.
    pub fn run_until_blocked(&mut self, f: &Flow) -> (r: Option<HttpRequest>)
        ensures
            exists|k: nat| reach(f@, old(self)@, final(self)@, k),
            old(self)@.pending is None ==> (finished(final(self)@) || r.is_some()),
            r.is_some() ==> final(self)@.pending is Some && r.unwrap()@ == request_spec(
                node_of(f@.nodes, final(self)@.pending.unwrap()).unwrap().data,
                final(self)@.vars,
            ),
    {
        if self.pending.is_some() {
            assert(reach(f@, self@, self@, 0));
            return None;
        }
        let ghost s0 = self@;
        let ghost mut k: nat = 0;
        assert(reach(f@, s0, self@, 0));
        while self.queue.len() > 0
            invariant
                reach(f@, s0, self@, k),
                s0 == old(self)@,
                self@.pending is None,
            decreases budget(f@.nodes, self@.visits), self@.queue.len(),
        {
            let ghost before = self@;
            let r = self.step(f);
            proof {
                lemma_reach_extend(f@, s0, before, self@, k);
                k = k + 1;
            }
            if r.is_some() {
                assert(reach(f@, s0, self@, k));
                assert(s0 == old(self)@);
                assert(reach(f@, old(self)@, self@, k));
                return r;
            }
        }
        None
    }

    /// Stores the result of the awaited HTTP node from what came of its request, and
    /// pushes the ids it selects. Does nothing when no outcome is awaited.
    pub fn complete_http(&mut self, f: &Flow, o: HttpOutcome)
        ensures
            final(self)@ == http_done(f@, old(self)@, o@),
    {
        let ghost s0 = self@;
        let ghost ov = o@;
        match self.pending.take() {
            None => {},
            Some(id) => {
                assert(opt_view(self.pending) == Option::<Seq<char>>::None);
                match find_node(f, id.as_str()) {
                    None => {},
                    Some(k) => {
                        let n = &f.nodes[k];
                        let result = http_result(&n.id, o);
                        proof {
                            lemma_node_of_id(f@.nodes, id@);
                            assert(n@.id == id@);
                        }
                        put_result_exec(&mut self.results, id.clone(), result);
                        dispatch_exec(f, id.as_str(), &None, &mut self.queue);

                    },
                }
            },
        }
    }
}

} // verus!
