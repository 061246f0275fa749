//! Properties of whole runs and of the branching handlers, stated over the models.

use vstd::prelude::*;
use crate::json::{JVal, jget};
use crate::graph::{FlowV, NodeV, EdgeV, ResultV, node_of, result_of, put_result, parents, outgoing};
use crate::branching::{
    condition_spec,
    condition_holds,
    loop_spec,
    loop_array,
    loop_index,
    as_index,
};
use crate::engine::{
    Kind,
    kind_of,
    step_rel,
    reach,
    finished,
    result_ok,
    handler_vars,
    popped,
    after_result,
    dispatched,
    init_state,
    VISIT_LIMIT,
    visits_of,
};
use crate::number::SCALE;
use crate::graph::primary_or_null;

verus! {

/// No node of the flow sends an HTTP request.
pub open spec fn self_contained(f: FlowV) -> bool {
    forall|i: int| 0 <= i < f.nodes.len() ==> kind_of(#[trigger] f.nodes[i].kind) != Kind::Http
}

proof fn lemma_node_of_listed(nodes: Seq<NodeV>, id: Seq<char>)
    ensures
        node_of(nodes, id) is Some ==> exists|i: int| 0 <= i < nodes.len() && nodes[i] == node_of(nodes, id).unwrap(),
    decreases nodes.len(),
{
    if nodes.len() > 0 {
        if nodes.last().id == id {
            assert(nodes[nodes.len() - 1] == nodes.last());
        } else {
            lemma_node_of_listed(nodes.drop_last(), id);
            if node_of(nodes, id) is Some {
                let i = choose|i: int| 0 <= i < nodes.drop_last().len() && nodes.drop_last()[i] == node_of(nodes.drop_last(), id).unwrap();
                assert(nodes[i] == nodes.drop_last()[i]);
            }
        }
    }
}

/// In a self-contained flow each state has at most one successor.
pub proof fn lemma_step_functional(f: FlowV, s: crate::engine::RunV, a: crate::engine::RunV, b: crate::engine::RunV)
    requires
        self_contained(f),
        step_rel(f, s, a),
        step_rel(f, s, b),
    ensures
        a == b,
{
    if s.pending is None && s.queue.len() > 0 {
        let id = s.queue.last();
        if visits_of(s.visits, id) + 1 <= VISIT_LIMIT {
            lemma_node_of_listed(f.nodes, id);
            match node_of(f.nodes, id) {
                Some(n) => {
                    let i = choose|i: int| 0 <= i < f.nodes.len() && f.nodes[i] == n;
                    assert(kind_of(f.nodes[i].kind) != Kind::Http);
                    let ra = choose|r: ResultV| result_ok(n, f, s.results, s.vars, r) && a == after_result(f, popped(s), n, r, handler_vars(n, f, s.results, s.vars));
                    let rb = choose|r: ResultV| result_ok(n, f, s.results, s.vars, r) && b == after_result(f, popped(s), n, r, handler_vars(n, f, s.results, s.vars));
                    assert(ra == rb);
                },
                None => {},
            }
        }
    }
}

proof fn lemma_reach_from_finished(f: FlowV, s: crate::engine::RunV, b: crate::engine::RunV, k: nat)
    requires
        finished(s),
        reach(f, s, b, k),
    ensures
        b == s,
    decreases k,
{
    if k > 0 {
        let m = choose|m: crate::engine::RunV| step_rel(f, s, m) && reach(f, m, b, (k - 1) as nat);
        lemma_reach_from_finished(f, m, b, (k - 1) as nat);
    }
}

proof fn lemma_finished_unique(f: FlowV, s: crate::engine::RunV, a: crate::engine::RunV, b: crate::engine::RunV, ka: nat, kb: nat)
    requires
        self_contained(f),
        reach(f, s, a, ka),
        reach(f, s, b, kb),
        finished(a),
        finished(b),
    ensures
        a == b,
    decreases ka + kb,
{
    if ka == 0 {
        lemma_reach_from_finished(f, a, b, kb);
    } else if kb == 0 {
        lemma_reach_from_finished(f, b, a, ka);
    } else {
        let ma = choose|m: crate::engine::RunV| step_rel(f, s, m) && reach(f, m, a, (ka - 1) as nat);
        let mb = choose|m: crate::engine::RunV| step_rel(f, s, m) && reach(f, m, b, (kb - 1) as nat);
        lemma_step_functional(f, s, ma, mb);
        lemma_finished_unique(f, ma, a, b, (ka - 1) as nat, (kb - 1) as nat);
    }
}

/// Runs are deterministic: two runs of the same flow without HTTP nodes from the same
/// initial variables that both finish end with the same results and variables.
pub proof fn lemma_run_deterministic(
    f: FlowV,
    vars: Seq<(Seq<char>, JVal)>,
    a: crate::engine::RunV,
    b: crate::engine::RunV,
    ka: nat,
    kb: nat,
)
    requires
        self_contained(f),
        reach(f, init_state(f, vars), a, ka),
        reach(f, init_state(f, vars), b, kb),
        finished(a),
        finished(b),
    ensures
        a.results == b.results,
        a.vars == b.vars,
{
    lemma_finished_unique(f, init_state(f, vars), a, b, ka, kb);
}

proof fn lemma_dispatched_outgoing(es: Seq<EdgeV>, id: Seq<char>, h: Option<Seq<char>>)
    ensures
        dispatched(es, id, h) == dispatched(outgoing(es, id), id, h),
    decreases es.len(),
{
    if es.len() > 0 {
        lemma_dispatched_outgoing(es.drop_last(), id, h);
        let o = outgoing(es.drop_last(), id);
        if es.last().source == id {
            assert(outgoing(es, id).drop_last() =~= o);
            assert(outgoing(es, id).last() == es.last());
        } else {
            assert(outgoing(es, id) =~= o);
        }
    }
}

/// A condition node takes exactly one branch: its handle is `"true"` or `"false"`, and
/// when its outgoing edges are one on each branch, exactly the target on the branch
/// taken is pushed.
pub proof fn lemma_branch_exclusive(
    n: NodeV,
    f: FlowV,
    rs: Seq<(Seq<char>, ResultV)>,
    et: EdgeV,
    ef: EdgeV,
)
    requires
        outgoing(f.edges, n.id) == seq![et, ef],
        et.handle == Some("true"@),
        ef.handle == Some("false"@),
    ensures
        condition_spec(n, f, rs).handle == Some("true"@) || condition_spec(n, f, rs).handle == Some("false"@),
        dispatched(f.edges, n.id, condition_spec(n, f, rs).handle) == if condition_holds(
            n.data,
            primary_or_null(f, rs, n.id),
        ) {
            seq![et.target]
        } else {
            seq![ef.target]
        },
{
    reveal_strlit("true");
    reveal_strlit("false");
    assert("true"@ != "false"@) by {
        assert("true"@.len() != "false"@.len());
    }
    let h = condition_spec(n, f, rs).handle;
    lemma_dispatched_outgoing(f.edges, n.id, h);
    let es = seq![et, ef];
    assert(es.drop_last() =~= seq![et]);
    assert(seq![et].drop_last() =~= Seq::<EdgeV>::empty());
    assert(es[0].source == n.id) by {
        assert(outgoing(f.edges, n.id)[0] == et);
        lemma_outgoing_source(f.edges, n.id, 0);
    }
    assert(es[1].source == n.id) by {
        assert(outgoing(f.edges, n.id)[1] == ef);
        lemma_outgoing_source(f.edges, n.id, 1);
    }
    reveal_with_fuel(dispatched, 3);
    assert(dispatched(es, n.id, h) =~= if condition_holds(n.data, primary_or_null(f, rs, n.id)) {
        seq![et.target]
    } else {
        seq![ef.target]
    });
}

proof fn lemma_outgoing_source(es: Seq<EdgeV>, id: Seq<char>, i: int)
    requires
        0 <= i < outgoing(es, id).len(),
    ensures
        outgoing(es, id)[i].source == id,
    decreases es.len(),
{
    if es.len() > 0 {
        let o = outgoing(es.drop_last(), id);
        if i < o.len() {
            lemma_outgoing_source(es.drop_last(), id, i);
        }
    }
}

proof fn lemma_put_other(rs: Seq<(Seq<char>, ResultV)>, id: Seq<char>, r: ResultV, p: Seq<char>)
    requires
        p != id,
    ensures
        result_of(put_result(rs, id, r), p) == result_of(rs, p),
    decreases rs.len(),
{
    if rs.len() == 0 {
        let b = seq![(id, r)];
        assert(b[0] == (id, r));
        assert(b.drop_first() =~= Seq::<(Seq<char>, ResultV)>::empty());
        assert(put_result(rs, id, r) == b);
        assert(result_of(b, p) == result_of(b.drop_first(), p));
    } else if rs[0].0 == id {
        let b = rs.update(0, (id, r));
        assert(b[0] == (id, r));
        assert(b.drop_first() =~= rs.drop_first());
        assert(put_result(rs, id, r) == b);
        assert(result_of(b, p) == result_of(b.drop_first(), p));
    } else {
        lemma_put_other(rs.drop_first(), id, r, p);
        let b = seq![rs[0]] + put_result(rs.drop_first(), id, r);
        assert(b[0] == rs[0]);
        assert(b.drop_first() =~= put_result(rs.drop_first(), id, r));
        assert(put_result(rs, id, r) == b);
    }
}

proof fn lemma_put_same(rs: Seq<(Seq<char>, ResultV)>, id: Seq<char>, r: ResultV)
    ensures
        result_of(put_result(rs, id, r), id) == Some(r),
    decreases rs.len(),
{
    if rs.len() > 0 && rs[0].0 != id {
        lemma_put_same(rs.drop_first(), id, r);
        assert((seq![rs[0]] + put_result(rs.drop_first(), id, r)).drop_first() =~= put_result(rs.drop_first(), id, r));
    }
}

proof fn lemma_loop_array_other(ps: Seq<Seq<char>>, rs: Seq<(Seq<char>, ResultV)>, id: Seq<char>, r: ResultV)
    requires
        !ps.contains(id),
    ensures
        loop_array(ps, put_result(rs, id, r)) == loop_array(ps, rs),
    decreases ps.len(),
{
    if ps.len() > 0 {
        assert(ps[0] != id) by {
            assert(ps.contains(ps[0]));
        }
        lemma_put_other(rs, id, r, ps[0]);
        assert forall|x: Seq<char>| ps.drop_first().contains(x) implies ps.contains(x) by {
            let j = choose|j: int| 0 <= j < ps.drop_first().len() && ps.drop_first()[j] == x;
            assert(ps[j + 1] == x);
        }
        lemma_loop_array_other(ps.drop_first(), rs, id, r);
    }
}

/// A loop node walks its array one index per visit: the first visit has index 0, each
/// visit after a result of its own has the next index, and a visit takes the body
/// branch exactly while its index is below the array's length. So an array of N items
/// gives the body branch for indices 0 to N-1 and then the done branch once, and a
/// result on the done branch does not push the node again.
pub proof fn lemma_loop_walk(n: NodeV, f: FlowV, rs: Seq<(Seq<char>, ResultV)>)
    requires
        !parents(f.edges, n.id).contains(n.id),
        loop_index(n.id, rs) < u64::MAX,
    ensures
        result_of(rs, n.id) is None ==> loop_index(n.id, rs) == 0,
        (loop_spec(n, f, rs).handle == Some("body"@)) == (loop_index(n.id, rs) < loop_array(
            parents(f.edges, n.id),
            rs,
        ).len()),
        loop_spec(n, f, rs).handle == Some("body"@) || loop_spec(n, f, rs).handle == Some("done"@),
        loop_array(parents(f.edges, n.id), put_result(rs, n.id, loop_spec(n, f, rs))) == loop_array(
            parents(f.edges, n.id),
            rs,
        ),
        loop_index(n.id, put_result(rs, n.id, loop_spec(n, f, rs))) == loop_index(n.id, rs) + 1,
{
    reveal_strlit("body");
    reveal_strlit("done");
    reveal_strlit("data");
    reveal_strlit("index");
    reveal_strlit("status");
    assert("body"@ != "done"@) by {
        assert("body"@[0] != "done"@[0]);
    }
    assert("data"@ != "index"@) by {
        assert("data"@[0] != "index"@[0]);
    }
    let r = loop_spec(n, f, rs);
    let k = loop_index(n.id, rs);
    lemma_loop_array_other(parents(f.edges, n.id), rs, n.id, r);
    lemma_put_same(rs, n.id, r);
    reveal_with_fuel(crate::json::member, 3);
    assert(jget(r.output, "index"@) == Some(JVal::Num(k * SCALE)));
    assert((k * SCALE) % (SCALE as int) == 0 && (k * SCALE) / (SCALE as int) == k) by (nonlinear_arith)
        requires
            SCALE == 1_000_000_000,
    ;
    assert(as_index(Some(JVal::Num(k * SCALE))) == k);
}

/// In a run, the step that evaluates a condition node whose outgoing edges are one on
/// each branch pushes exactly one id: the target on the branch that its test selects.
pub proof fn lemma_branch_step(
    f: FlowV,
    s: crate::engine::RunV,
    s2: crate::engine::RunV,
    n: NodeV,
    et: EdgeV,
    ef: EdgeV,
)
    requires
        step_rel(f, s, s2),
        s.pending is None,
        s.queue.len() > 0,
        visits_of(s.visits, s.queue.last()) + 1 <= VISIT_LIMIT,
        node_of(f.nodes, s.queue.last()) == Some(n),
        kind_of(n.kind) == Kind::Condition,
        outgoing(f.edges, n.id) == seq![et, ef],
        et.handle == Some("true"@),
        ef.handle == Some("false"@),
    ensures
        s2.queue == s.queue.drop_last() + if condition_holds(n.data, primary_or_null(f, s.results, n.id)) {
            seq![et.target]
        } else {
            seq![ef.target]
        },
{
    lemma_branch_exclusive(n, f, s.results, et, ef);
    let r = choose|r: ResultV| result_ok(n, f, s.results, s.vars, r) && s2 == after_result(f, popped(s), n, r, handler_vars(n, f, s.results, s.vars));
    assert(r == condition_spec(n, f, s.results));
    assert(kind_of(n.kind) != Kind::Loop);
    assert(s2.queue =~= s.queue.drop_last() + dispatched(f.edges, n.id, r.handle));
}

/// In a run, the step that evaluates a loop node stores its result for the node and
/// pushes the node again, before its selected targets, exactly when the visit's index
/// is below the array's length; the next visit's index is one more.
pub proof fn lemma_loop_step(f: FlowV, s: crate::engine::RunV, s2: crate::engine::RunV, n: NodeV)
    requires
        step_rel(f, s, s2),
        s.pending is None,
        s.queue.len() > 0,
        visits_of(s.visits, s.queue.last()) + 1 <= VISIT_LIMIT,
        node_of(f.nodes, s.queue.last()) == Some(n),
        kind_of(n.kind) == Kind::Loop,
        !parents(f.edges, n.id).contains(n.id),
        loop_index(n.id, s.results) < u64::MAX,
    ensures
        s2.queue == s.queue.drop_last() + (if loop_index(n.id, s.results) < loop_array(
            parents(f.edges, n.id),
            s.results,
        ).len() {
            seq![n.id]
        } else {
            Seq::empty()
        }) + dispatched(f.edges, n.id, loop_spec(n, f, s.results).handle),
        result_of(s2.results, n.id) == Some(loop_spec(n, f, s.results)),
        loop_index(n.id, s2.results) == loop_index(n.id, s.results) + 1,
        loop_array(parents(f.edges, n.id), s2.results) == loop_array(parents(f.edges, n.id), s.results),
{
    lemma_loop_walk(n, f, s.results);
    let r = choose|r: ResultV| result_ok(n, f, s.results, s.vars, r) && s2 == after_result(f, popped(s), n, r, handler_vars(n, f, s.results, s.vars));
    assert(r == loop_spec(n, f, s.results));
    lemma_put_same(s.results, n.id, r);
}

} // verus!
