//! Saved request templates and the rule that stores one among the others.

use vstd::prelude::*;
use crate::json::Json;
use crate::json::text_eq;

verus! {

/// A saved request: method, endpoint and optional headers, body and parameters.
#[derive(Debug)]
pub struct RequestTemplate {
    pub id: String,
    pub name: String,
    pub method: String,
    pub endpoint: String,
    pub headers: Option<Json>,
    pub body: Option<Json>,
    pub params: Option<Json>,
}

/// Position of the first template with id `id`, or `ts.len()` when there is none.
pub open spec fn position_of(ts: Seq<RequestTemplate>, id: Seq<char>) -> int
    decreases ts.len(),
{
    if ts.len() == 0 {
        0
    } else if ts[0].id@ == id {
        0
    } else {
        1 + position_of(ts.drop_first(), id)
    }
}

proof fn lemma_position_of(ts: Seq<RequestTemplate>, id: Seq<char>, i: int)
    requires
        0 <= i <= ts.len(),
        forall|j: int| 0 <= j < i ==> (#[trigger] ts[j]).id@ != id,
        i < ts.len() ==> ts[i].id@ == id,
    ensures
        position_of(ts, id) == i,
    decreases i,
{
    if i > 0 {
        assert forall|j: int| 0 <= j < i - 1 implies (#[trigger] ts.drop_first()[j]).id@ != id by {
            assert(ts.drop_first()[j] == ts[j + 1]);
        }
        lemma_position_of(ts.drop_first(), id, i - 1);
    }
}

/// Stores `t`: it replaces the first template with the same id, or is added at the end.
pub fn upsert_template(ts: &mut Vec<RequestTemplate>, t: RequestTemplate)
    ensures
        position_of(old(ts)@, t.id@) < old(ts)@.len() ==> final(ts)@ == old(ts)@.update(
            position_of(old(ts)@, t.id@),
            t,
        ),
        position_of(old(ts)@, t.id@) == old(ts)@.len() ==> final(ts)@ == old(ts)@.push(t),
{
    let ghost t0 = ts@;
    let mut i: usize = 0;
    while i < ts.len()
        invariant
            i <= ts.len(),
            ts@ == t0,
            forall|j: int| 0 <= j < i ==> (#[trigger] t0[j]).id@ != t.id@,
        ensures
            i <= ts.len(),
            ts@ == t0,
            forall|j: int| 0 <= j < i ==> (#[trigger] t0[j]).id@ != t.id@,
            i < ts.len() ==> t0[i as int].id@ == t.id@,
        decreases ts.len() - i,
    {
        if text_eq(ts[i].id.as_str(), t.id.as_str()) {
            break;
        }
        i = i + 1;
    }
    proof {
        lemma_position_of(t0, t.id@, i as int);
    }
    if i < ts.len() {
        ts.set(i, t);
    } else {
        ts.push(t);
    }
}

} // verus!
