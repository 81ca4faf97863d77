//! The JSON value type and its mathematical model.

use vstd::prelude::*;

use crate::strutil::clone_chars;

verus! {

/// A JSON document, owned as a tree.
///
/// Text — string contents, object keys, and the canonical decimal rendering of
/// numbers — is held as a sequence of characters. An object is an ordered list
/// of key/value entries; canonicalization rewrites it into key order.
#[derive(Debug, PartialEq)]
pub enum Json {
    Null,
    Bool(bool),
    /// A number, as its canonical decimal text (e.g. `1`, `-2.5`, `1e30`).
    Num(Vec<char>),
    Str(Vec<char>),
    Arr(Vec<Json>),
    Obj(Vec<(Vec<char>, Json)>),
}

/// The mathematical model of a JSON value: the same tree, over `Seq`.
pub enum JVal {
    Null,
    Bool(bool),
    Num(Seq<char>),
    Str(Seq<char>),
    Arr(Seq<JVal>),
    Obj(Seq<(Seq<char>, JVal)>),
}

/// The model of an executable value.
pub open spec fn jval(v: Json) -> JVal
    decreases v,
{
    match v {
        Json::Null => JVal::Null,
        Json::Bool(b) => JVal::Bool(b),
        Json::Num(s) => JVal::Num(s@),
        Json::Str(s) => JVal::Str(s@),
        Json::Arr(a) => JVal::Arr(jval_arr(a@)),
        Json::Obj(o) => JVal::Obj(jval_obj(o@)),
    }
}

/// The models of the elements of an array.
pub open spec fn jval_arr(a: Seq<Json>) -> Seq<JVal>
    decreases a,
{
    if a.len() == 0 {
        Seq::empty()
    } else {
        seq![jval(a[0])] + jval_arr(a.subrange(1, a.len() as int))
    }
}

/// The models of the entries of an object.
pub open spec fn jval_obj(o: Seq<(Vec<char>, Json)>) -> Seq<(Seq<char>, JVal)>
    decreases o,
{
    if o.len() == 0 {
        Seq::empty()
    } else {
        seq![(o[0].0@, jval(o[0].1))] + jval_obj(o.subrange(1, o.len() as int))
    }
}

impl View for Json {
    type V = JVal;

    open spec fn view(&self) -> JVal {
        jval(*self)
    }
}

/// `jval_arr` maps `jval` over the elements.
pub proof fn lemma_jval_arr(a: Seq<Json>)
    ensures
        jval_arr(a).len() == a.len(),
        forall|i: int| 0 <= i < a.len() ==> jval_arr(a)[i] == jval(a[i]),
    decreases a.len(),
{
    if a.len() > 0 {
        lemma_jval_arr(a.subrange(1, a.len() as int));
    }
}

/// `jval_obj` maps the key view and `jval` over the entries.
pub proof fn lemma_jval_obj(o: Seq<(Vec<char>, Json)>)
    ensures
        jval_obj(o).len() == o.len(),
        forall|i: int| 0 <= i < o.len() ==> jval_obj(o)[i] == (o[i].0@, jval(o[i].1)),
    decreases o.len(),
{
    if o.len() > 0 {
        lemma_jval_obj(o.subrange(1, o.len() as int));
    }
}

#[verifier::loop_isolation(false)]
fn clone_json(v: &Json) -> (r: Json)
    ensures
        jval(r) == jval(*v),
    decreases v, 0int,
{
    match v {
        Json::Null => Json::Null,
        Json::Bool(b) => Json::Bool(*b),
        Json::Num(s) => Json::Num(clone_chars(s)),
        Json::Str(s) => Json::Str(clone_chars(s)),
        Json::Arr(a) => {
            let mut out: Vec<Json> = Vec::new();
            let mut i: usize = 0;
            while i < a.len()
                invariant
                    i <= a@.len(),
                    out@.len() == i,
                    forall|q: int| 0 <= q < i ==> jval(#[trigger] out@[q]) == jval(a@[q]),
                decreases a@.len() - i,
            {
                proof {
                    assert(*v == Json::Arr(*a));
                    assert(decreases_to!(*v => v->Arr_0));
                    assert(decreases_to!(*a => a@));
                    assert(decreases_to!(a@ => a@[i as int]));
                    assert(decreases_to!(*v => a@[i as int]));
                }
                let c = clone_json(&a[i]);
                out.push(c);
                i = i + 1;
            }
            proof {
                lemma_jval_arr(a@);
                lemma_jval_arr(out@);
                assert(jval_arr(out@) =~= jval_arr(a@));
            }
            Json::Arr(out)
        },
        Json::Obj(o) => {
            let mut out: Vec<(Vec<char>, Json)> = Vec::new();
            let mut i: usize = 0;
            while i < o.len()
                invariant
                    i <= o@.len(),
                    out@.len() == i,
                    forall|q: int|
                        0 <= q < i ==> (#[trigger] out@[q]).0@ == o@[q].0@ && jval(out@[q].1)
                            == jval(o@[q].1),
                decreases o@.len() - i,
            {
                proof {
                    assert(*v == Json::Obj(*o));
                    assert(decreases_to!(*v => v->Obj_0));
                    assert(decreases_to!(*o => o@));
                    assert(decreases_to!(o@ => o@[i as int]));
                    assert(decreases_to!(o@[i as int] => o@[i as int].1));
                    assert(decreases_to!(*v => o@[i as int].1));
                }
                let k = clone_chars(&o[i].0);
                let c = clone_json(&o[i].1);
                out.push((k, c));
                i = i + 1;
            }
            proof {
                lemma_jval_obj(o@);
                lemma_jval_obj(out@);
                assert(jval_obj(out@) =~= jval_obj(o@));
            }
            Json::Obj(out)
        },
    }
}

impl Clone for Json {
    /// A deep copy with the same model.
    fn clone(&self) -> (r: Json)
        ensures
            r@ == self@,
    {
        clone_json(self)
    }
}

/// A character that may appear in the decimal text of a number.
pub open spec fn num_char(c: char) -> bool {
    ('0' <= c && c <= '9') || c == '-' || c == '+' || c == '.' || c == 'e' || c == 'E'
}

/// A well-formed number text: nonempty, starting with a digit or a minus
/// sign, every character from the number alphabet — as any parsed document
/// provides.
pub open spec fn wf_num(s: Seq<char>) -> bool {
    &&& s.len() > 0
    &&& (s[0] == '-' || ('0' <= s[0] && s[0] <= '9'))
    &&& forall|i: int| 0 <= i < s.len() ==> num_char(#[trigger] s[i])
}

/// A well-formed value: every number text in it is a number rendering.
pub open spec fn wf(v: JVal) -> bool
    decreases v,
{
    match v {
        JVal::Null => true,
        JVal::Bool(_) => true,
        JVal::Num(s) => wf_num(s),
        JVal::Str(_) => true,
        JVal::Arr(a) => wf_arr(a),
        JVal::Obj(o) => wf_obj(o),
    }
}

pub open spec fn wf_arr(a: Seq<JVal>) -> bool
    decreases a,
{
    a.len() == 0 || (wf(a[0]) && wf_arr(a.subrange(1, a.len() as int)))
}

pub open spec fn wf_obj(o: Seq<(Seq<char>, JVal)>) -> bool
    decreases o,
{
    o.len() == 0 || (wf(o[0].1) && wf_obj(o.subrange(1, o.len() as int)))
}

pub proof fn lemma_wf_arr(a: Seq<JVal>)
    ensures
        wf_arr(a) <==> (forall|i: int| 0 <= i < a.len() ==> wf(#[trigger] a[i])),
    decreases a.len(),
{
    if a.len() > 0 {
        let t = a.subrange(1, a.len() as int);
        lemma_wf_arr(t);
        assert(forall|i: int| 0 <= i < t.len() ==> #[trigger] t[i] == a[i + 1]);
        if wf_arr(a) {
            assert forall|i: int| 0 <= i < a.len() implies wf(#[trigger] a[i]) by {
                if i > 0 {
                    assert(wf(t[i - 1]));
                }
            }
        }
        if forall|i: int| 0 <= i < a.len() ==> wf(#[trigger] a[i]) {
            assert forall|i: int| 0 <= i < t.len() implies wf(#[trigger] t[i]) by {
                assert(wf(a[i + 1]));
            }
            assert(wf(a[0]));
            assert(wf_arr(a));
        }
    }
}

pub proof fn lemma_wf_obj(o: Seq<(Seq<char>, JVal)>)
    ensures
        wf_obj(o) <==> (forall|i: int| 0 <= i < o.len() ==> wf((#[trigger] o[i]).1)),
    decreases o.len(),
{
    if o.len() > 0 {
        let t = o.subrange(1, o.len() as int);
        lemma_wf_obj(t);
        assert(forall|i: int| 0 <= i < t.len() ==> #[trigger] t[i] == o[i + 1]);
        if wf_obj(o) {
            assert forall|i: int| 0 <= i < o.len() implies wf((#[trigger] o[i]).1) by {
                if i > 0 {
                    assert(wf(t[i - 1].1));
                }
            }
        }
        if forall|i: int| 0 <= i < o.len() ==> wf((#[trigger] o[i]).1) {
            assert forall|i: int| 0 <= i < t.len() implies wf((#[trigger] t[i]).1) by {
                assert(wf(o[i + 1].1));
            }
            assert(wf(o[0].1));
            assert(wf_obj(o));
        }
    }
}

} // verus!
