//! JSON values as the workflow sees them: the executable `Json`, its mathematical
//! model `JVal`, member lookup, and the JSON text of a value.

use vstd::prelude::*;
use crate::number::{Num, num_text};
use crate::text::{chars_of, string_of};

verus! {

/// A JSON value. Objects read from a document list their keys in ascending order,
/// each once, as serde_json's map does, and `insert_member` keeps that order; the
/// type itself does not require it.
#[derive(Debug)]
pub enum Json {
    Null,
    Bool(bool),
    Number(Num),
    Str(String),
    Array(Vec<Json>),
    Object(Vec<(String, Json)>),
}

/// The model of a JSON value: numbers in units (see `number`), text as characters.
pub enum JVal {
    Null,
    Bool(bool),
    Num(int),
    Str(Seq<char>),
    Arr(Seq<JVal>),
    Obj(Seq<(Seq<char>, JVal)>),
}

pub open spec fn json_view(j: Json) -> JVal
    decreases j,
{
    match j {
        Json::Null => JVal::Null,
        Json::Bool(b) => JVal::Bool(b),
        Json::Number(n) => JVal::Num(n.units as int),
        Json::Str(s) => JVal::Str(s@),
        Json::Array(a) => JVal::Arr(
            Seq::new(a.len() as nat, |i: int| if 0 <= i < a.len() { json_view(a[i]) } else { JVal::Null }),
        ),
        Json::Object(m) => JVal::Obj(
            Seq::new(
                m.len() as nat,
                |i: int|
                    if 0 <= i < m.len() {
                        (m[i].0@, json_view(m[i].1))
                    } else {
                        (Seq::empty(), JVal::Null)
                    },
            ),
        ),
    }
}

impl View for Json {
    type V = JVal;

    open spec fn view(&self) -> JVal {
        json_view(*self)
    }
}

/// Lexicographic order of texts by character, the order of `str`'s comparisons.
pub open spec fn text_lt(a: Seq<char>, b: Seq<char>) -> bool
    decreases a.len(),
{
    if b.len() == 0 {
        false
    } else if a.len() == 0 {
        true
    } else if a[0] != b[0] {
        a[0] < b[0]
    } else {
        text_lt(a.drop_first(), b.drop_first())
    }
}

/// `a < b` on texts.
pub fn lt_chars(a: &Vec<char>, b: &Vec<char>) -> (r: bool)
    ensures
        r == text_lt(a@, b@),
{
    let mut i: usize = 0;
    assert(a@.skip(0) =~= a@);
    assert(b@.skip(0) =~= b@);
    while i < a.len() && i < b.len() && a[i] == b[i]
        invariant
            i <= a.len(),
            i <= b.len(),
            text_lt(a@.skip(i as int), b@.skip(i as int)) == text_lt(a@, b@),
        decreases a.len() - i,
    {
        proof {
            assert(a@.skip(i as int).drop_first() =~= a@.skip(i + 1));
            assert(b@.skip(i as int).drop_first() =~= b@.skip(i + 1));
        }
        i = i + 1;
    }
    if i == b.len() {
        false
    } else if i == a.len() {
        true
    } else {
        assert(a@.skip(i as int)[0] == a@[i as int]);
        assert(b@.skip(i as int)[0] == b@[i as int]);
        a[i] < b[i]
    }
}

/// The value of the first member named `k`.
pub open spec fn member(m: Seq<(Seq<char>, JVal)>, k: Seq<char>) -> Option<JVal>
    decreases m.len(),
{
    if m.len() == 0 {
        None
    } else if m[0].0 == k {
        Some(m[0].1)
    } else {
        member(m.drop_first(), k)
    }
}

/// `v[k]` as `serde_json::Value::get` reads it: a member of an object, else nothing.
pub open spec fn jget(v: JVal, k: Seq<char>) -> Option<JVal> {
    match v {
        JVal::Obj(m) => member(m, k),
        _ => None,
    }
}

/// `m` with member `k` set to `v`, keeping ascending key order.
pub open spec fn insert_member(m: Seq<(Seq<char>, JVal)>, k: Seq<char>, v: JVal) -> Seq<
    (Seq<char>, JVal),
>
    decreases m.len(),
{
    if m.len() == 0 {
        seq![(k, v)]
    } else if m[0].0 == k {
        m.update(0, (k, v))
    } else if text_lt(k, m[0].0) {
        seq![(k, v)] + m
    } else {
        seq![m[0]] + insert_member(m.drop_first(), k, v)
    }
}

pub open spec fn hex_digit(d: int) -> char {
    if d < 10 {
        crate::number::digit_char(d)
    } else if d == 10 { 'a' } else if d == 11 { 'b' } else if d == 12 { 'c' }
    else if d == 13 { 'd' } else if d == 14 { 'e' } else { 'f' }
}

/// How one character stands inside a JSON string.
pub open spec fn escape_char(c: char) -> Seq<char> {
    if c == '"' {
        seq!['\\', '"']
    } else if c == '\\' {
        seq!['\\', '\\']
    } else if c == '\n' {
        seq!['\\', 'n']
    } else if c == '\r' {
        seq!['\\', 'r']
    } else if c == '\t' {
        seq!['\\', 't']
    } else if c as u32 == 8 {
        seq!['\\', 'b']
    } else if c as u32 == 12 {
        seq!['\\', 'f']
    } else if (c as u32) < 0x20 {
        seq!['\\', 'u', '0', '0', hex_digit((c as u32) as int / 16), hex_digit((c as u32) as int % 16)]
    } else {
        seq![c]
    }
}

pub open spec fn escape(s: Seq<char>) -> Seq<char>
    decreases s.len(),
{
    if s.len() == 0 {
        Seq::empty()
    } else {
        escape(s.drop_last()) + escape_char(s.last())
    }
}

pub open spec fn quoted(s: Seq<char>) -> Seq<char> {
    seq!['"'] + escape(s) + seq!['"']
}

/// The compact JSON text of a value, as `serde_json::Value`'s `to_string` writes it.
pub open spec fn render(v: JVal) -> Seq<char>
    decreases v,
{
    match v {
        JVal::Null => seq!['n', 'u', 'l', 'l'],
        JVal::Bool(b) => if b { seq!['t', 'r', 'u', 'e'] } else { seq!['f', 'a', 'l', 's', 'e'] },
        JVal::Num(u) => num_text(u),
        JVal::Str(s) => quoted(s),
        JVal::Arr(a) => seq!['['] + render_items(a) + seq![']'],
        JVal::Obj(m) => seq!['{'] + render_members(m) + seq!['}'],
    }
}

pub open spec fn render_items(a: Seq<JVal>) -> Seq<char>
    decreases a,
{
    if a.len() == 0 {
        Seq::empty()
    } else if a.len() == 1 {
        render(a[0])
    } else {
        render_items(a.drop_last()) + seq![','] + render(a.last())
    }
}

pub open spec fn render_members(m: Seq<(Seq<char>, JVal)>) -> Seq<char>
    decreases m,
{
    if m.len() == 0 {
        Seq::empty()
    } else if m.len() == 1 {
        quoted(m[0].0) + seq![':'] + render(m[0].1)
    } else {
        render_members(m.drop_last()) + seq![','] + quoted(m.last().0) + seq![':'] + render(
            m.last().1,
        )
    }
}

/// A value as text: a string stands for itself, anything else for its JSON text.
pub open spec fn text_of(v: JVal) -> Seq<char> {
    match v {
        JVal::Str(s) => s,
        _ => render(v),
    }
}

pub open spec fn items_view(a: Seq<Json>) -> Seq<JVal> {
    Seq::new(a.len(), |i: int| json_view(a[i]))
}

pub open spec fn members_view(m: Seq<(String, Json)>) -> Seq<(Seq<char>, JVal)> {
    Seq::new(m.len(), |i: int| (m[i].0@, json_view(m[i].1)))
}

pub proof fn lemma_array_view(a: Vec<Json>)
    ensures
        Json::Array(a)@ == JVal::Arr(items_view(a@)),
{
    let v = json_view(Json::Array(a));
    assert(Json::Array(a)@ == v);
    assert(v->Arr_0 =~= items_view(a@));
}

pub proof fn lemma_object_view(m: Vec<(String, Json)>)
    ensures
        Json::Object(m)@ == JVal::Obj(members_view(m@)),
{
    let v = json_view(Json::Object(m));
    assert(Json::Object(m)@ == v);
    assert(v->Obj_0 =~= members_view(m@));
}

/// Equality of two texts.
pub fn text_eq(a: &str, b: &str) -> (r: bool)
    ensures
        r == (a@ == b@),
{
    let x = chars_of(a);
    let y = chars_of(b);
    if x.len() != y.len() {
        return false;
    }
    let mut i: usize = 0;
    while i < x.len()
        invariant
            x@ == a@,
            y@ == b@,
            x.len() == y.len(),
            i <= x.len(),
            forall|k: int| 0 <= k < i ==> x@[k] == y@[k],
        decreases x.len() - i,
    {
        if x[i] != y[i] {
            assert(x@[i as int] != y@[i as int]);
            return false;
        }
        i = i + 1;
    }
    assert(x@ =~= y@);
    true
}

proof fn lemma_member_skip(m: Seq<(Seq<char>, JVal)>, k: Seq<char>, i: int)
    requires
        0 <= i <= m.len(),
        forall|j: int| 0 <= j < i ==> m[j].0 != k,
    ensures
        member(m, k) == member(m.skip(i), k),
    decreases i,
{
    if i == 0 {
        assert(m.skip(0) =~= m);
    } else {
        assert(m.skip(1) =~= m.drop_first());
        assert forall|j: int| 0 <= j < i - 1 implies m.drop_first()[j].0 != k by {
            assert(m[j + 1].0 != k);
        }
        lemma_member_skip(m.drop_first(), k, i - 1);
        assert(m.drop_first().skip(i - 1) =~= m.skip(i));
    }
}

proof fn lemma_escape_append(s: Seq<char>, c: char)
    ensures
        escape(s.push(c)) == escape(s) + escape_char(c),
{
    assert(s.push(c).drop_last() =~= s);
}

fn hex_to_char(d: u32) -> (c: char)
    requires
        d < 16,
    ensures
        c == hex_digit(d as int),
{
    if d < 10 {
        crate::number::digit_to_char(d as u128)
    } else if d == 10 { 'a' } else if d == 11 { 'b' } else if d == 12 { 'c' }
    else if d == 13 { 'd' } else if d == 14 { 'e' } else { 'f' }
}

/// Appends `s` as a quoted JSON string.
fn write_quoted(s: &str, out: &mut Vec<char>)
    ensures
        final(out)@ == old(out)@ + quoted(s@),
{
    let c = chars_of(s);
    out.push('"');
    let mut i: usize = 0;
    while i < c.len()
        invariant
            i <= c.len(),
            out@ == old(out)@ + seq!['"'] + escape(c@.take(i as int)),
        decreases c.len() - i,
    {
        let ch = c[i];
        let ghost before = out@;
        let code = ch as u32;
        if ch == '"' {
            out.push('\\');
            out.push('"');
        } else if ch == '\\' {
            out.push('\\');
            out.push('\\');
        } else if ch == '\n' {
            out.push('\\');
            out.push('n');
        } else if ch == '\r' {
            out.push('\\');
            out.push('r');
        } else if ch == '\t' {
            out.push('\\');
            out.push('t');
        } else if code == 8 {
            out.push('\\');
            out.push('b');
        } else if code == 12 {
            out.push('\\');
            out.push('f');
        } else if code < 0x20 {
            out.push('\\');
            out.push('u');
            out.push('0');
            out.push('0');
            out.push(hex_to_char(code / 16));
            out.push(hex_to_char(code % 16));
        } else {
            out.push(ch);
        }
        proof {
            assert(out@ =~= before + escape_char(ch));
            assert(c@.take(i + 1) =~= c@.take(i as int).push(ch));
            lemma_escape_append(c@.take(i as int), ch);
        }
        i = i + 1;
    }
    out.push('"');
    assert(c@.take(c.len() as int) =~= c@);
    assert(out@ =~= old(out)@ + quoted(s@));
}

impl Json {
    /// A copy of the value.
    pub fn copy(&self) -> (r: Json)
        ensures
            r@ == self@,
        decreases self,
    {
        match self {
            Json::Null => Json::Null,
            Json::Bool(b) => Json::Bool(*b),
            Json::Number(n) => Json::Number(*n),
            Json::Str(s) => Json::Str(s.clone()),
            Json::Array(a) => {
                let mut out: Vec<Json> = Vec::new();
                let mut i: usize = 0;
                while i < a.len()
                    invariant
                        i <= a.len(),
                        out.len() == i,
                        forall|k: int| 0 <= k < i ==> (#[trigger] out@[k])@ == a@[k]@,
                        *self == Json::Array(*a),
                        decreases_to!(*self => *a),
                    decreases a.len() - i,
                {
                    proof {
                        assert(decreases_to!(*a => a[i as int]));
                    }
                    let x = a[i].copy();
                    out.push(x);
                    i = i + 1;
                }
                proof {
                    lemma_array_view(*a);
                    lemma_array_view(out);
                    assert(items_view(out@) =~= items_view(a@));
                }
                Json::Array(out)
            },
            Json::Object(m) => {
                let mut out: Vec<(String, Json)> = Vec::new();
                let mut i: usize = 0;
                while i < m.len()
                    invariant
                        i <= m.len(),
                        out.len() == i,
                        forall|k: int| 0 <= k < i ==> (#[trigger] out@[k]).0@ == m@[k].0@,
                        forall|k: int| 0 <= k < i ==> (#[trigger] out@[k]).1@ == m@[k].1@,
                        *self == Json::Object(*m),
                        decreases_to!(*self => *m),
                    decreases m.len() - i,
                {
                    let k = m[i].0.clone();
                    proof {
                        assert(decreases_to!(*m => m[i as int]));
                        assert(decreases_to!(m[i as int] => m[i as int].1));
                    }
                    let x = m[i].1.copy();
                    out.push((k, x));
                    i = i + 1;
                }
                proof {
                    lemma_object_view(*m);
                    lemma_object_view(out);
                    assert(members_view(out@) =~= members_view(m@));
                }
                Json::Object(out)
            },
        }
    }

    /// The member named `key`, as `serde_json::Value::get` finds it.
    pub fn get(&self, key: &str) -> (r: Option<&Json>)
        ensures
            r.is_some() == jget(self@, key@).is_some(),
            r.is_some() ==> r.unwrap()@ == jget(self@, key@).unwrap(),
    {
        match self {
            Json::Object(m) => {
                proof {
                    lemma_object_view(*m);
                }
                let ghost mv = members_view(m@);
                let mut i: usize = 0;
                while i < m.len()
                    invariant
                        i <= m.len(),
                        mv == members_view(m@),
                        *self == Json::Object(*m),
                        self@ == JVal::Obj(mv),
                        forall|j: int| 0 <= j < i ==> mv[j].0 != key@,
                    decreases m.len() - i,
                {
                    if text_eq(m[i].0.as_str(), key) {
                        proof {
                            lemma_member_skip(mv, key@, i as int);
                            assert(mv.skip(i as int)[0] == mv[i as int]);
                            assert(mv[i as int].0 == key@);
                            assert(member(mv.skip(i as int), key@) == Some(mv[i as int].1));
                            assert(self@ == JVal::Obj(mv));
                            assert(jget(self@, key@) == Some(mv[i as int].1));
                            assert(m@[i as int].1@ == mv[i as int].1);
                        }
                        return Some(&m[i].1);
                    }
                    i = i + 1;
                }
                proof {
                    lemma_member_skip(mv, key@, i as int);
                }
                None
            },
            _ => None,
        }
    }

    /// Appends the JSON text of the value.
    pub fn write_json(&self, out: &mut Vec<char>)
        ensures
            final(out)@ == old(out)@ + render(self@),
        decreases self,
    {
        match self {
            Json::Null => {
                out.push('n');
                out.push('u');
                out.push('l');
                out.push('l');
                assert(out@ =~= old(out)@ + render(self@));
            },
            Json::Bool(b) => {
                if *b {
                    out.push('t');
                    out.push('r');
                    out.push('u');
                    out.push('e');
                } else {
                    out.push('f');
                    out.push('a');
                    out.push('l');
                    out.push('s');
                    out.push('e');
                }
                assert(out@ =~= old(out)@ + render(self@));
            },
            Json::Number(n) => {
                n.write_text(out);
            },
            Json::Str(s) => {
                write_quoted(s.as_str(), out);
            },
            Json::Array(a) => {
                proof {
                    lemma_array_view(*a);
                }
                let ghost av = items_view(a@);
                out.push('[');
                let mut i: usize = 0;
                while i < a.len()
                    invariant
                        i <= a.len(),
                        av == items_view(a@),
                        self@ == JVal::Arr(av),
                        *self == Json::Array(*a),
                        out@ == old(out)@ + seq!['['] + render_items(av.take(i as int)),
                    decreases a.len() - i,
                {
                    let ghost before = out@;
                    if i > 0 {
                        out.push(',');
                    }
                    proof {
                        assert(decreases_to!(*self => a@[i as int]));
                        assert(av[i as int] == a@[i as int]@);
                    }
                    a[i].write_json(out);
                    proof {
                        assert(av.take(i + 1).drop_last() =~= av.take(i as int));
                        if i == 0 {
                            assert(av.take(0) =~= Seq::<JVal>::empty());
                        }
                    }
                    i = i + 1;
                }
                out.push(']');
                assert(av.take(a.len() as int) =~= av);
                assert(out@ =~= old(out)@ + render(self@));
            },
            Json::Object(m) => {
                proof {
                    lemma_object_view(*m);
                }
                let ghost mv = members_view(m@);
                out.push('{');
                let mut i: usize = 0;
                while i < m.len()
                    invariant
                        i <= m.len(),
                        mv == members_view(m@),
                        self@ == JVal::Obj(mv),
                        *self == Json::Object(*m),
                        out@ == old(out)@ + seq!['{'] + render_members(mv.take(i as int)),
                    decreases m.len() - i,
                {
                    if i > 0 {
                        out.push(',');
                    }
                    write_quoted(m[i].0.as_str(), out);
                    out.push(':');
                    proof {
                        assert(decreases_to!(*self => m@[i as int].1));
                        assert(mv[i as int].1 == m@[i as int].1@);
                    }
                    m[i].1.write_json(out);
                    proof {
                        assert(mv.take(i + 1).drop_last() =~= mv.take(i as int));
                        if i == 0 {
                            assert(mv.take(0) =~= Seq::<(Seq<char>, JVal)>::empty());
                        }
                    }
                    i = i + 1;
                }
                out.push('}');
                assert(mv.take(m.len() as int) =~= mv);
                assert(out@ =~= old(out)@ + render(self@));
            },
        }
    }

    /// The compact JSON text of the value.
    pub fn to_json_text(&self) -> (r: String)
        ensures
            r@ == render(self@),
    {
        let mut out: Vec<char> = Vec::new();
        self.write_json(&mut out);
        assert(out@ =~= render(self@));
        string_of(out.as_slice())
    }

    /// The value as text: a string as it is, anything else as its JSON text.
    pub fn text(&self) -> (r: String)
        ensures
            r@ == text_of(self@),
    {
        match self {
            Json::Str(s) => s.clone(),
            _ => self.to_json_text(),
        }
    }
}

proof fn lemma_insert_member_at(m: Seq<(Seq<char>, JVal)>, k: Seq<char>, v: JVal, i: int)
    requires
        0 <= i <= m.len(),
        forall|j: int| 0 <= j < i ==> m[j].0 != k && !text_lt(k, m[j].0),
    ensures
        insert_member(m, k, v) == m.take(i) + insert_member(m.skip(i), k, v),
    decreases i,
{
    if i == 0 {
        assert(m.skip(0) =~= m);
        assert(m.take(0) + insert_member(m, k, v) =~= insert_member(m, k, v));
    } else {
        assert forall|j: int| 0 <= j < i - 1 implies m.drop_first()[j].0 != k && !text_lt(
            k,
            m.drop_first()[j].0,
        ) by {
            assert(m.drop_first()[j] == m[j + 1]);
        }
        lemma_insert_member_at(m.drop_first(), k, v, i - 1);
        assert(m.drop_first().skip(i - 1) =~= m.skip(i));
        assert(m.take(i) =~= seq![m[0]] + m.drop_first().take(i - 1));
    }
}

/// Sets member `k` of `m` to `v`, keeping keys in ascending order.
pub fn insert_member_exec(m: &mut Vec<(String, Json)>, k: String, v: Json)
    ensures
        members_view(final(m)@) == insert_member(members_view(old(m)@), k@, v@),
{
    let ghost mv = members_view(m@);
    let kc = chars_of(k.as_str());
    let mut i: usize = 0;
    while i < m.len()
        invariant
            i <= m.len(),
            mv == members_view(m@),
            kc@ == k@,
            forall|j: int| 0 <= j < i ==> mv[j].0 != k@ && !text_lt(k@, mv[j].0),
        ensures
            i <= m.len(),
            mv == members_view(m@),
            forall|j: int| 0 <= j < i ==> mv[j].0 != k@ && !text_lt(k@, mv[j].0),
            i < m.len() ==> (mv[i as int].0 == k@ || text_lt(k@, mv[i as int].0)),
        decreases m.len() - i,
    {
        let other = chars_of(m[i].0.as_str());
        if text_eq(m[i].0.as_str(), k.as_str()) || lt_chars(&kc, &other) {
            break;
        }
        i = i + 1;
    }
    proof {
        lemma_insert_member_at(mv, k@, v@, i as int);
    }
    if i < m.len() && text_eq(m[i].0.as_str(), k.as_str()) {
        let ghost kk = k@;
        let ghost vv = v@;
        m.set(i, (k, v));
        proof {
            assert(mv.skip(i as int)[0] == mv[i as int]);
            assert(mv.skip(i as int)[0].0 == kk);
            assert(members_view(m@) =~= mv.take(i as int) + mv.skip(i as int).update(0, (kk, vv)));
        }
    } else {
        let ghost kk = k@;
        let ghost vv = v@;
        m.insert(i, (k, v));
        proof {
            if i < mv.len() {
                assert(mv.skip(i as int)[0] == mv[i as int]);
                assert(members_view(m@) =~= mv.take(i as int) + (seq![(kk, vv)] + mv.skip(i as int)));
            } else {
                assert(mv.skip(i as int) =~= Seq::<(Seq<char>, JVal)>::empty());
                assert(members_view(m@) =~= mv.take(i as int) + seq![(kk, vv)]);
            }
        }
    }
}

/// The value of member `k`, first match.
pub fn member_exec<'a>(m: &'a Vec<(String, Json)>, k: &str) -> (r: Option<&'a Json>)
    ensures
        r.is_some() == member(members_view(m@), k@).is_some(),
        r.is_some() ==> r.unwrap()@ == member(members_view(m@), k@).unwrap(),
{
    let ghost mv = members_view(m@);
    let mut i: usize = 0;
    while i < m.len()
        invariant
            i <= m.len(),
            mv == members_view(m@),
            forall|j: int| 0 <= j < i ==> mv[j].0 != k@,
        decreases m.len() - i,
    {
        if text_eq(m[i].0.as_str(), k) {
            proof {
                lemma_member_skip(mv, k@, i as int);
                assert(mv.skip(i as int)[0] == mv[i as int]);
            }
            return Some(&m[i].1);
        }
        i = i + 1;
    }
    proof {
        lemma_member_skip(mv, k@, i as int);
    }
    None
}

/// A string value.
pub fn jstr(s: &str) -> (r: Json)
    ensures
        r@ == JVal::Str(s@),
{
    Json::Str(String::from_str(s))
}

/// An object of the given members, in the order given.
pub fn jobj(m: Vec<(String, Json)>) -> (r: Json)
    ensures
        r@ == JVal::Obj(members_view(m@)),
{
    proof {
        lemma_object_view(m);
    }
    Json::Object(m)
}

/// An array of the given items.
pub fn jarr(a: Vec<Json>) -> (r: Json)
    ensures
        r@ == JVal::Arr(items_view(a@)),
{
    proof {
        lemma_array_view(a);
    }
    Json::Array(a)
}

/// A member `(k, v)`.
pub fn mem(k: &str, v: Json) -> (r: (String, Json))
    ensures
        r.0@ == k@,
        r.1@ == v@,
{
    (String::from_str(k), v)
}

/// Keys strictly ascending: each once, in order.
pub open spec fn keys_ascending(m: Seq<(Seq<char>, JVal)>) -> bool {
    forall|i: int, j: int| 0 <= i < j < m.len() ==> text_lt(#[trigger] m[i].0, #[trigger] m[j].0)
}

proof fn lemma_text_lt_irrefl(a: Seq<char>)
    ensures
        !text_lt(a, a),
    decreases a.len(),
{
    if a.len() > 0 {
        lemma_text_lt_irrefl(a.drop_first());
    }
}

proof fn lemma_text_lt_trans(a: Seq<char>, b: Seq<char>, c: Seq<char>)
    requires
        text_lt(a, b),
        text_lt(b, c),
    ensures
        text_lt(a, c),
    decreases a.len(),
{
    if a.len() > 0 && b.len() > 0 && c.len() > 0 && a[0] == b[0] && b[0] == c[0] {
        lemma_text_lt_trans(a.drop_first(), b.drop_first(), c.drop_first());
    }
}

proof fn lemma_text_lt_total(a: Seq<char>, b: Seq<char>)
    requires
        a != b,
    ensures
        text_lt(a, b) || text_lt(b, a),
    decreases a.len(),
{
    if a.len() > 0 && b.len() > 0 && a[0] == b[0] {
        if a.drop_first() == b.drop_first() {
            assert(a =~= seq![a[0]] + a.drop_first());
            assert(b =~= seq![b[0]] + b.drop_first());
        }
        lemma_text_lt_total(a.drop_first(), b.drop_first());
    } else if a.len() > 0 && b.len() > 0 {
    } else if a.len() == 0 && b.len() == 0 {
        assert(a =~= b);
    }
}

proof fn lemma_insert_member_keys(m: Seq<(Seq<char>, JVal)>, k: Seq<char>, v: JVal, i: int)
    requires
        0 <= i < insert_member(m, k, v).len(),
    ensures
        insert_member(m, k, v)[i].0 == k || exists|j: int| 0 <= j < m.len() && m[j].0 == insert_member(m, k, v)[i].0,
    decreases m.len(),
{
    if m.len() > 0 && m[0].0 != k && !text_lt(k, m[0].0) {
        if i > 0 {
            lemma_insert_member_keys(m.drop_first(), k, v, i - 1);
            let r = insert_member(m.drop_first(), k, v);
            assert(insert_member(m, k, v)[i] == r[i - 1]);
            if r[i - 1].0 != k {
                let j = choose|j: int| 0 <= j < m.drop_first().len() && m.drop_first()[j].0 == r[i - 1].0;
                assert(m[j + 1] == m.drop_first()[j]);
            }
        } else {
            assert(m[0].0 == insert_member(m, k, v)[0].0);
        }
    } else if m.len() > 0 && m[0].0 != k {
        if i > 0 {
            assert(insert_member(m, k, v)[i] == m[i - 1]);
        }
    } else if m.len() > 0 {
        if i > 0 {
            assert(insert_member(m, k, v)[i] == m[i]);
        }
    }
}

/// Setting a member keeps keys strictly ascending.
pub proof fn lemma_insert_member_ascending(m: Seq<(Seq<char>, JVal)>, k: Seq<char>, v: JVal)
    requires
        keys_ascending(m),
    ensures
        keys_ascending(insert_member(m, k, v)),
    decreases m.len(),
{
    let r = insert_member(m, k, v);
    if m.len() == 0 {
    } else if m[0].0 == k {
        assert forall|i: int, j: int| 0 <= i < j < r.len() implies text_lt(#[trigger] r[i].0, #[trigger] r[j].0) by {
            assert(r[i].0 == m[i].0);
            assert(r[j].0 == m[j].0);
        }
    } else if text_lt(k, m[0].0) {
        assert forall|i: int, j: int| 0 <= i < j < r.len() implies text_lt(#[trigger] r[i].0, #[trigger] r[j].0) by {
            if i == 0 {
                if j > 1 {
                    lemma_text_lt_trans(k, m[0].0, m[j - 1].0);
                }
            } else {
                assert(r[i] == m[i - 1]);
                assert(r[j] == m[j - 1]);
            }
        }
    } else {
        lemma_text_lt_total(k, m[0].0);
        let rest = m.drop_first();
        assert(keys_ascending(rest)) by {
            assert forall|i: int, j: int| 0 <= i < j < rest.len() implies text_lt(#[trigger] rest[i].0, #[trigger] rest[j].0) by {
                assert(rest[i] == m[i + 1]);
                assert(rest[j] == m[j + 1]);
            }
        }
        lemma_insert_member_ascending(rest, k, v);
        let t = insert_member(rest, k, v);
        assert(r == seq![m[0]] + t);
        assert forall|i: int, j: int| 0 <= i < j < r.len() implies text_lt(#[trigger] r[i].0, #[trigger] r[j].0) by {
            if i == 0 {
                assert(r[j] == t[j - 1]);
                lemma_insert_member_keys(rest, k, v, j - 1);
                if t[j - 1].0 != k {
                    let q = choose|q: int| 0 <= q < rest.len() && rest[q].0 == t[j - 1].0;
                    assert(rest[q] == m[q + 1]);
                }
            } else {
                assert(r[i] == t[i - 1]);
                assert(r[j] == t[j - 1]);
            }
        }
    }
}

} // verus!
