//! The run-scoped variable store and `{{name}}` substitution.

use vstd::prelude::*;
use crate::json::{
    keys_ascending,
    lemma_insert_member_ascending,
    Json,
    JVal,
    member,
    insert_member,
    members_view,
    text_of,
    member_exec,
    insert_member_exec,
};
use crate::text::{chars_of, string_of};

verus! {

/// Name-to-value store of one run. The constructors and `set` keep names in
/// ascending order, each once (`keys_ascending`).
#[derive(Debug)]
pub struct VarStore {
    pub entries: Vec<(String, Json)>,
}

impl View for VarStore {
    type V = Seq<(Seq<char>, JVal)>;

    open spec fn view(&self) -> Seq<(Seq<char>, JVal)> {
        members_view(self.entries@)
    }
}

/// The store after setting each of `init`'s names in turn.
pub open spec fn store_of(init: Seq<(Seq<char>, JVal)>) -> Seq<(Seq<char>, JVal)>
    decreases init.len(),
{
    if init.len() == 0 {
        Seq::empty()
    } else {
        insert_member(store_of(init.drop_last()), init.last().0, init.last().1)
    }
}

impl VarStore {
    /// An empty store.
    pub fn new() -> (r: VarStore)
        ensures
            r@ == Seq::<(Seq<char>, JVal)>::empty(),
            keys_ascending(r@),
    {
        let r = VarStore { entries: Vec::new() };
        assert(r@ =~= Seq::<(Seq<char>, JVal)>::empty());
        r
    }

    /// A store seeded with the given names and values; a later duplicate name wins.
    pub fn from_entries(init: Vec<(String, Json)>) -> (r: VarStore)
        ensures
            r@ == store_of(members_view(init@)),
            keys_ascending(r@),
    {
        let ghost iv = members_view(init@);
        let mut r = VarStore::new();
        let mut rest = init;
        let ghost n = iv.len();
        assert(r@ =~= store_of(iv.take(0)));
        assert(members_view(rest@) =~= iv.skip(0));
        while rest.len() > 0
            invariant
                rest.len() <= n,
                n == iv.len(),
                members_view(rest@) == iv.skip(n - rest.len()),
                r@ == store_of(iv.take(n - rest.len())),
                keys_ascending(r@),
            decreases rest.len(),
        {
            let ghost before = members_view(rest@);
            let ghost old_rest = rest@;
            let ghost t = n - rest.len();
            let (k, v) = rest.remove(0);
            proof {
                assert(rest@ =~= old_rest.skip(1));
                assert(before.skip(1) =~= iv.skip(t + 1));
                assert(before[0] == iv[t]);
                assert(iv.take(t + 1).drop_last() =~= iv.take(t));
                assert(members_view(rest@) =~= iv.skip(t + 1));
            }
            r.set(k, v);
        }
        proof {
            assert(iv.take(n as int) =~= iv);
        }
        r
    }

    /// The value of `name`, if the store holds it.
    pub fn get(&self, name: &str) -> (r: Option<&Json>)
        ensures
            r.is_some() == member(self@, name@).is_some(),
            r.is_some() ==> r.unwrap()@ == member(self@, name@).unwrap(),
    {
        member_exec(&self.entries, name)
    }

    /// Sets `name` to `value`.
    pub fn set(&mut self, name: String, value: Json)
        ensures
            final(self)@ == insert_member(old(self)@, name@, value@),
            keys_ascending(old(self)@) ==> keys_ascending(final(self)@),
    {
        proof {
            if keys_ascending(self@) {
                lemma_insert_member_ascending(self@, name@, value@);
            }
        }
        insert_member_exec(&mut self.entries, name, value);
    }
}

/// First position `j >= k` where `"}}"` starts, or `s.len()` when there is none.
pub open spec fn close_from(s: Seq<char>, k: int) -> int
    decreases s.len() - k,
{
    if k < 0 || k + 1 >= s.len() {
        s.len() as int
    } else if s[k] == '}' && s[k + 1] == '}' {
        k
    } else {
        close_from(s, k + 1)
    }
}

/// Does a placeholder `{{name}}` start at `i`? Its name ends at `close_from(s, i + 2)`.
pub open spec fn placeholder_at(s: Seq<char>, i: int) -> bool {
    0 <= i && i + 1 < s.len() && s[i] == '{' && s[i + 1] == '{' && i + 2 <= close_from(s, i + 2)
        && close_from(s, i + 2) + 1 < s.len()
}

pub open spec fn placeholder_name(s: Seq<char>, i: int) -> Seq<char> {
    s.subrange(i + 2, close_from(s, i + 2))
}

/// The text from position `i` on, with each placeholder whose name the store holds
/// replaced by that value's text, in one left-to-right pass.
pub open spec fn subst_from(s: Seq<char>, i: int, vars: Seq<(Seq<char>, JVal)>) -> Seq<char>
    decreases s.len() - i,
{
    if i < 0 || i >= s.len() {
        Seq::empty()
    } else if placeholder_at(s, i) && member(vars, placeholder_name(s, i)) is Some {
        text_of(member(vars, placeholder_name(s, i)).unwrap()) + subst_from(
            s,
            close_from(s, i + 2) + 2,
            vars,
        )
    } else {
        seq![s[i]] + subst_from(s, i + 1, vars)
    }
}

pub open spec fn substitute(s: Seq<char>, vars: Seq<(Seq<char>, JVal)>) -> Seq<char> {
    subst_from(s, 0, vars)
}

proof fn lemma_close_from(s: Seq<char>, k: int)
    requires
        0 <= k,
    ensures
        k <= close_from(s, k) <= s.len() || close_from(s, k) == s.len(),
        close_from(s, k) < s.len() ==> close_from(s, k) + 1 < s.len() && s[close_from(s, k)] == '}'
            && s[close_from(s, k) + 1] == '}',
    decreases s.len() - k,
{
    if k + 1 < s.len() && !(s[k] == '}' && s[k + 1] == '}') {
        lemma_close_from(s, k + 1);
    }
}

fn find_close(c: &Vec<char>, k: usize) -> (r: usize)
    ensures
        r == close_from(c@, k as int),
{
    let mut j: usize = k;
    while j < c.len() && j + 1 < c.len() && !(c[j] == '}' && c[j + 1] == '}')
        invariant
            k <= j,
            close_from(c@, j as int) == close_from(c@, k as int),
        decreases c.len() - j,
    {
        j = j + 1;
    }
    if j < c.len() && j + 1 < c.len() {
        j
    } else {
        c.len()
    }
}

fn slice_chars(c: &Vec<char>, from: usize, to: usize) -> (r: Vec<char>)
    requires
        from <= to <= c.len(),
    ensures
        r@ == c@.subrange(from as int, to as int),
{
    let mut r: Vec<char> = Vec::new();
    let mut i: usize = from;
    while i < to
        invariant
            from <= i <= to <= c.len(),
            r@ == c@.subrange(from as int, i as int),
        decreases to - i,
    {
        r.push(c[i]);
        i = i + 1;
        assert(r@ =~= c@.subrange(from as int, i as int));
    }
    r
}

/// Replaces each `{{name}}` in `text` whose name the store holds by the value's text
/// (a string as it is, anything else as JSON text); other text is kept as it is.
pub fn substitute_text(text: &str, vars: &VarStore) -> (r: String)
    ensures
        r@ == substitute(text@, vars@),
{
    let c = chars_of(text);
    let mut out: Vec<char> = Vec::new();
    let mut i: usize = 0;
    while i < c.len()
        invariant
            i <= c.len() + 1,
            c@ == text@,
            out@ + subst_from(c@, i as int, vars@) == subst_from(c@, 0, vars@),
        decreases c.len() - i,
    {
        let mut replaced = false;
        if i + 1 < c.len() && c[i] == '{' && c[i + 1] == '{' {
            let j = find_close(&c, i + 2);
            proof {
                lemma_close_from(c@, i + 2);
            }
            if j < c.len() {
                let name = string_of(slice_chars(&c, i + 2, j).as_slice());
                match vars.get(name.as_str()) {
                    Some(v) => {
                        let t = chars_of(v.text().as_str());
                        let ghost before = out@;
                        let mut q: usize = 0;
                        while q < t.len()
                            invariant
                                q <= t.len(),
                                out@ == before + t@.take(q as int),
                            decreases t.len() - q,
                        {
                            out.push(t[q]);
                            q = q + 1;
                            assert(out@ =~= before + t@.take(q as int));
                        }
                        assert(t@.take(t.len() as int) =~= t@);
                        assert(out@ + subst_from(c@, j + 2, vars@) =~= before + subst_from(c@, i as int, vars@));
                        i = j + 2;
                        replaced = true;
                    },
                    None => {},
                }
            }
        }
        if !replaced {
            let ghost before = out@;
            out.push(c[i]);
            assert(out@ + subst_from(c@, i + 1, vars@) =~= before + subst_from(c@, i as int, vars@));
            i = i + 1;
        }
    }
    assert(out@ =~= subst_from(c@, 0, vars@));
    string_of(out.as_slice())
}

/// Substitution leaves a text unchanged when none of its placeholders names a
/// variable of the store.
pub proof fn lemma_substitute_miss(s: Seq<char>, vars: Seq<(Seq<char>, JVal)>)
    requires
        forall|i: int| placeholder_at(s, i) ==> member(vars, #[trigger] placeholder_name(s, i)) is None,
    ensures
        substitute(s, vars) == s,
{
    lemma_subst_miss_from(s, vars, 0);
    assert(s.skip(0) =~= s);
}

proof fn lemma_subst_miss_from(s: Seq<char>, vars: Seq<(Seq<char>, JVal)>, i: int)
    requires
        0 <= i <= s.len(),
        forall|i: int| placeholder_at(s, i) ==> member(vars, #[trigger] placeholder_name(s, i)) is None,
    ensures
        subst_from(s, i, vars) == s.skip(i),
    decreases s.len() - i,
{
    if i < s.len() {
        lemma_subst_miss_from(s, vars, i + 1);
        assert(s.skip(i) =~= seq![s[i]] + s.skip(i + 1));
    } else {
        assert(s.skip(i) =~= Seq::<char>::empty());
    }
}

} // verus!
