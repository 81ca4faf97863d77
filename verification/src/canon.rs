//! Canonicalization: sort keys (structural fingerprints) and normalization.
//!
//! Normalization rewrites every object into ascending key order, and — when
//! asked — rewrites every array into ascending order of a fingerprint derived
//! from each element's normalized content, breaking fingerprint ties by the
//! original element order.

use vstd::prelude::*;

use crate::pretty::{cpt, cpt_exec};
use crate::sort::{lemma_pviews, pview, pviews, sort_pairs, sort_pairs_exec};
use crate::strutil::{chars_to_string, clone_chars};
use crate::value::{jval, jval_arr, jval_obj, lemma_jval_arr, lemma_jval_obj, JVal, Json};

verus! {

/// The sort key of a value: a fixed sentinel for null and the booleans, the
/// decimal text for a number, the text itself for a string, the concatenated
/// element keys for an array, and `/key:compact-value` for each entry of an
/// object.
pub open spec fn fp(v: JVal) -> Seq<char>
    decreases v,
{
    match v {
        JVal::Null => seq!['_', '_', 'n', 'u', 'l', 'l', '_', '_'],
        JVal::Bool(b) => if b {
            seq!['_', '_', 't', 'r', 'u', 'e', '_', '_']
        } else {
            seq!['_', '_', 'f', 'a', 'l', 's', 'e', '_', '_']
        },
        JVal::Num(s) => s,
        JVal::Str(s) => s,
        JVal::Arr(a) => fp_arr(a),
        JVal::Obj(o) => fp_obj(o),
    }
}

/// The concatenated sort keys of array elements.
pub open spec fn fp_arr(a: Seq<JVal>) -> Seq<char>
    decreases a,
{
    if a.len() == 0 {
        Seq::empty()
    } else {
        fp(a[0]) + fp_arr(a.subrange(1, a.len() as int))
    }
}

/// The concatenated `/key:compact-value` parts of object entries.
pub open spec fn fp_obj(o: Seq<(Seq<char>, JVal)>) -> Seq<char>
    decreases o,
{
    if o.len() == 0 {
        Seq::empty()
    } else {
        seq!['/'] + o[0].0 + seq![':'] + cpt(o[0].1) + fp_obj(o.subrange(1, o.len() as int))
    }
}

/// Every element normalized.
pub open spec fn norm_arr(a: Seq<JVal>, na: bool) -> Seq<JVal>
    decreases a,
{
    if a.len() == 0 {
        Seq::empty()
    } else {
        seq![norm(a[0], na)] + norm_arr(a.subrange(1, a.len() as int), na)
    }
}

/// Every entry's value normalized, keys kept.
pub open spec fn norm_obj(o: Seq<(Seq<char>, JVal)>, na: bool) -> Seq<(Seq<char>, JVal)>
    decreases o,
{
    if o.len() == 0 {
        Seq::empty()
    } else {
        seq![(o[0].0, norm(o[0].1, na))] + norm_obj(o.subrange(1, o.len() as int), na)
    }
}

/// Each element paired with its fingerprint.
pub open spec fn key_arr(s: Seq<JVal>) -> Seq<(Seq<char>, JVal)>
    decreases s.len(),
{
    if s.len() == 0 {
        Seq::empty()
    } else {
        seq![(fp(s[0]), s[0])] + key_arr(s.subrange(1, s.len() as int))
    }
}

/// The values of a sequence of pairs.
pub open spec fn vals(s: Seq<(Seq<char>, JVal)>) -> Seq<JVal>
    decreases s.len(),
{
    if s.len() == 0 {
        Seq::empty()
    } else {
        seq![s[0].1] + vals(s.subrange(1, s.len() as int))
    }
}

/// The canonical form of a value. Scalars are unchanged; object entries are
/// normalized and brought into ascending key order; array elements are
/// normalized, and when `na` is set also brought into ascending fingerprint
/// order, fingerprint ties keeping their original order.
pub open spec fn norm(v: JVal, na: bool) -> JVal
    decreases v,
{
    match v {
        JVal::Null => v,
        JVal::Bool(_) => v,
        JVal::Num(_) => v,
        JVal::Str(_) => v,
        JVal::Arr(a) => if na {
            JVal::Arr(vals(sort_pairs(key_arr(norm_arr(a, na)))))
        } else {
            JVal::Arr(norm_arr(a, na))
        },
        JVal::Obj(o) => JVal::Obj(sort_pairs(norm_obj(o, na))),
    }
}

pub proof fn lemma_norm_arr(a: Seq<JVal>, na: bool)
    ensures
        norm_arr(a, na).len() == a.len(),
        forall|i: int| 0 <= i < a.len() ==> norm_arr(a, na)[i] == norm(a[i], na),
    decreases a.len(),
{
    if a.len() > 0 {
        lemma_norm_arr(a.subrange(1, a.len() as int), na);
    }
}

pub proof fn lemma_norm_obj(o: Seq<(Seq<char>, JVal)>, na: bool)
    ensures
        norm_obj(o, na).len() == o.len(),
        forall|i: int| 0 <= i < o.len() ==> norm_obj(o, na)[i] == (o[i].0, norm(o[i].1, na)),
    decreases o.len(),
{
    if o.len() > 0 {
        lemma_norm_obj(o.subrange(1, o.len() as int), na);
    }
}

pub proof fn lemma_key_arr(s: Seq<JVal>)
    ensures
        key_arr(s).len() == s.len(),
        forall|i: int| 0 <= i < s.len() ==> key_arr(s)[i] == (fp(s[i]), s[i]),
    decreases s.len(),
{
    if s.len() > 0 {
        lemma_key_arr(s.subrange(1, s.len() as int));
    }
}

pub proof fn lemma_vals(s: Seq<(Seq<char>, JVal)>)
    ensures
        vals(s).len() == s.len(),
        forall|i: int| 0 <= i < s.len() ==> vals(s)[i] == s[i].1,
    decreases s.len(),
{
    if s.len() > 0 {
        lemma_vals(s.subrange(1, s.len() as int));
    }
}

/// Appends the sort key of `v` to `out`.
pub(crate) fn fp_exec(v: &Json, out: &mut Vec<char>)
    ensures
        final(out)@ == old(out)@ + fp(jval(*v)),
    decreases v, 0int,
{
    match v {
        Json::Null => {
            out.push('_');
            out.push('_');
            out.push('n');
            out.push('u');
            out.push('l');
            out.push('l');
            out.push('_');
            out.push('_');
        },
        Json::Bool(b) => {
            out.push('_');
            out.push('_');
            if *b {
                out.push('t');
                out.push('r');
                out.push('u');
                out.push('e');
            } else {
                out.push('f');
                out.push('a');
                out.push('l');
                out.push('s');
                out.push('e');
            }
            out.push('_');
            out.push('_');
        },
        Json::Num(s) => {
            let mut i: usize = 0;
            let ghost base = out@;
            while i < s.len()
                invariant
                    i <= s@.len(),
                    out@ == base + s@.subrange(0, i as int),
                decreases s@.len() - i,
            {
                out.push(s[i]);
                proof {
                    assert(s@.subrange(0, i + 1 as int) =~= s@.subrange(0, i as int).push(
                        s@[i as int],
                    ));
                }
                i = i + 1;
            }
            proof {
                assert(s@.subrange(0, s@.len() as int) =~= s@);
            }
        },
        Json::Str(s) => {
            let mut i: usize = 0;
            let ghost base = out@;
            while i < s.len()
                invariant
                    i <= s@.len(),
                    out@ == base + s@.subrange(0, i as int),
                decreases s@.len() - i,
            {
                out.push(s[i]);
                proof {
                    assert(s@.subrange(0, i + 1 as int) =~= s@.subrange(0, i as int).push(
                        s@[i as int],
                    ));
                }
                i = i + 1;
            }
            proof {
                assert(s@.subrange(0, s@.len() as int) =~= s@);
            }
        },
        Json::Arr(a) => {
            fp_arr_exec(a, 0, out);
            proof {
                lemma_jval_arr(a@);
                assert(jval_arr(a@).subrange(0, a@.len() as int) =~= jval_arr(a@));
            }
        },
        Json::Obj(o) => {
            fp_obj_exec(o, 0, out);
            proof {
                lemma_jval_obj(o@);
                assert(jval_obj(o@).subrange(0, o@.len() as int) =~= jval_obj(o@));
            }
        },
    }
    proof {
        assert(out@ =~= old(out)@ + fp(jval(*v)));
    }
}

fn fp_arr_exec(a: &Vec<Json>, i: usize, out: &mut Vec<char>)
    requires
        i <= a@.len(),
    ensures
        final(out)@ == old(out)@ + fp_arr(jval_arr(a@).subrange(i as int, a@.len() as int)),
    decreases a, a@.len() - i,
{
    proof {
        lemma_jval_arr(a@);
    }
    let ghost s = jval_arr(a@).subrange(i as int, a@.len() as int);
    if i == a.len() {
        proof {
            assert(out@ =~= old(out)@ + fp_arr(s));
        }
    } else {
        fp_exec(&a[i], out);
        fp_arr_exec(a, i + 1, out);
        proof {
            assert(s.subrange(1, s.len() as int) =~= jval_arr(a@).subrange(
                i + 1 as int,
                a@.len() as int,
            ));
            assert(out@ =~= old(out)@ + fp_arr(s));
        }
    }
}

fn fp_obj_exec(o: &Vec<(Vec<char>, Json)>, i: usize, out: &mut Vec<char>)
    requires
        i <= o@.len(),
    ensures
        final(out)@ == old(out)@ + fp_obj(jval_obj(o@).subrange(i as int, o@.len() as int)),
    decreases o, o@.len() - i,
{
    proof {
        lemma_jval_obj(o@);
    }
    let ghost s = jval_obj(o@).subrange(i as int, o@.len() as int);
    if i == o.len() {
        proof {
            assert(out@ =~= old(out)@ + fp_obj(s));
        }
    } else {
        out.push('/');
        let mut j: usize = 0;
        let ghost base = out@;
        let k = &o[i].0;
        while j < k.len()
            invariant
                j <= k@.len(),
                out@ == base + k@.subrange(0, j as int),
            decreases k@.len() - j,
        {
            out.push(k[j]);
            proof {
                assert(k@.subrange(0, j + 1 as int) =~= k@.subrange(0, j as int).push(
                    k@[j as int],
                ));
            }
            j = j + 1;
        }
        proof {
            assert(k@.subrange(0, k@.len() as int) =~= k@);
        }
        out.push(':');
        cpt_exec(&o[i].1, out);
        fp_obj_exec(o, i + 1, out);
        proof {
            assert(s.subrange(1, s.len() as int) =~= jval_obj(o@).subrange(
                i + 1 as int,
                o@.len() as int,
            ));
            assert(out@ =~= old(out)@ + fp_obj(s));
        }
    }
}

/// The sort key of a value, as a string. Object entries contribute in their
/// stored order; the canonicalizer keys only canonical values, whose entries
/// stand in key order.
pub fn generate_array_key(v: &Json) -> (r: String)
    ensures
        r@ == fp(jval(*v)),
{
    let mut out: Vec<char> = Vec::new();
    fp_exec(v, &mut out);
    chars_to_string(&out)
}

#[verifier::loop_isolation(false)]
fn norm_exec(v: &Json, na: bool) -> (r: Json)
    ensures
        jval(r) == norm(jval(*v), na),
    decreases v, 0int,
{
    match v {
        Json::Null => Json::Null,
        Json::Bool(b) => Json::Bool(*b),
        Json::Num(s) => Json::Num(clone_chars(s)),
        Json::Str(s) => Json::Str(clone_chars(s)),
        Json::Arr(a) => {
            let ghost m = jval_arr(a@);
            proof {
                lemma_jval_arr(a@);
            }
            if na {
                let mut pairs: Vec<(Vec<char>, Json)> = Vec::new();
                let mut i: usize = 0;
                proof {
                    lemma_pviews(pairs@);
                    assert(m.subrange(0, 0) =~= Seq::<JVal>::empty());
                    assert(pviews(pairs@) =~= key_arr(norm_arr(m.subrange(0, 0), na)));
                }
                while i < a.len()
                    invariant
                        i <= a@.len(),
                        m == jval_arr(a@),
                        pviews(pairs@) == key_arr(norm_arr(m.subrange(0, i as int), na)),
                    decreases a@.len() - i,
                {
                    proof {
                        assert(*v == Json::Arr(*a));
                        assert(decreases_to!(*v => v->Arr_0));
                        assert(v->Arr_0 == *a);
                        assert(decreases_to!(*a => a@));
                        assert(decreases_to!(a@ => a@[i as int]));
                        assert(decreases_to!(*v => a@[i as int]));
                    }
                    let n = norm_exec(&a[i], na);
                    let mut key: Vec<char> = Vec::new();
                    fp_exec(&n, &mut key);
                    let ghost prev = pairs@;
                    pairs.push((key, n));
                    proof {
                        lemma_jval_arr(a@);
                        lemma_pviews(prev);
                        lemma_pviews(pairs@);
                        let pre = m.subrange(0, i as int);
                        let cur = m.subrange(0, i + 1);
                        lemma_norm_arr(pre, na);
                        lemma_norm_arr(cur, na);
                        lemma_key_arr(norm_arr(pre, na));
                        lemma_key_arr(norm_arr(cur, na));
                        assert(cur[i as int] == m[i as int]);
                        assert(jval(n) == norm(m[i as int], na));
                        assert(key@ == fp(jval(n)));
                        assert forall|q: int| 0 <= q < pairs@.len() implies pviews(pairs@)[q]
                            == key_arr(norm_arr(cur, na))[q] by {
                            assert(pviews(pairs@)[q] == pview(pairs@[q]));
                            if q < prev.len() {
                                assert(pairs@[q] == prev[q]);
                                assert(pviews(prev)[q] == pview(prev[q]));
                                assert(pre[q] == cur[q]);
                                assert(norm_arr(pre, na)[q] == norm_arr(cur, na)[q]);
                            } else {
                                assert(pairs@[q] == (key, n));
                                assert(norm_arr(cur, na)[q] == norm(cur[q], na));
                            }
                        }
                        assert(pviews(pairs@) =~= key_arr(norm_arr(cur, na)));
                    }
                    i = i + 1;
                }
                proof {
                    assert(m.subrange(0, a@.len() as int) =~= m);
                }
                let sorted = sort_pairs_exec(pairs);
                let ghost sortedm = sort_pairs(key_arr(norm_arr(m, na)));
                let mut out: Vec<Json> = Vec::new();
                let mut rest = sorted;
                let ghost total = sortedm.len() as int;
                proof {
                    lemma_pviews(rest@);
                    assert(jval_arr(out@) =~= vals(sortedm).subrange(0, 0)) by {
                        lemma_vals(sortedm);
                        lemma_jval_arr(out@);
                    }
                }
                while rest.len() > 0
                    invariant
                        rest@.len() <= total,
                        total == sortedm.len(),
                        pviews(rest@) == sortedm.subrange(total - rest@.len(), total),
                        jval_arr(out@) == vals(sortedm).subrange(0, total - rest@.len()),
                        out@.len() == total - rest@.len(),
                    decreases rest@.len(),
                {
                    let ghost idx = total - rest@.len();
                    let ghost prevr = rest@;
                    let ghost prevo = out@;
                    let p = rest.remove(0);
                    out.push(p.1);
                    proof {
                        lemma_pviews(prevr);
                        lemma_pviews(rest@);
                        lemma_jval_arr(prevo);
                        lemma_jval_arr(out@);
                        lemma_vals(sortedm);
                        assert(rest@ =~= prevr.subrange(1, prevr.len() as int));
                        assert forall|q: int| 0 <= q < rest@.len() implies pviews(rest@)[q]
                            == sortedm.subrange(idx + 1, total)[q] by {
                            assert(pviews(rest@)[q] == pview(rest@[q]));
                            assert(rest@[q] == prevr[q + 1]);
                            assert(pviews(prevr)[q + 1] == pview(prevr[q + 1]));
                            assert(sortedm.subrange(idx, total)[q + 1] == sortedm[idx + 1 + q]);
                        }
                        assert(pviews(rest@) =~= sortedm.subrange(idx + 1, total));
                        assert(pviews(prevr)[0] == pview(prevr[0]));
                        assert(sortedm.subrange(idx, total)[0] == sortedm[idx]);
                        assert(jval(p.1) == sortedm[idx].1);
                        assert forall|q: int| 0 <= q < out@.len() implies jval_arr(out@)[q]
                            == vals(sortedm).subrange(0, idx + 1)[q] by {
                            assert(jval_arr(out@)[q] == jval(out@[q]));
                            if q < prevo.len() {
                                assert(out@[q] == prevo[q]);
                                assert(jval_arr(prevo)[q] == jval(prevo[q]));
                            } else {
                                assert(out@[q] == p.1);
                                assert(vals(sortedm)[idx] == sortedm[idx].1);
                            }
                        }
                        assert(jval_arr(out@) =~= vals(sortedm).subrange(0, idx + 1));
                    }
                }
                proof {
                    lemma_vals(sortedm);
                    assert(vals(sortedm).subrange(0, total) =~= vals(sortedm));
                }
                Json::Arr(out)
            } else {
                let mut out: Vec<Json> = Vec::new();
                let mut i: usize = 0;
                proof {
                    lemma_jval_arr(out@);
                    assert(jval_arr(out@) =~= norm_arr(m.subrange(0, 0), na)) by {
                        lemma_norm_arr(m.subrange(0, 0), na);
                    }
                }
                while i < a.len()
                    invariant
                        i <= a@.len(),
                        m == jval_arr(a@),
                        jval_arr(out@) == norm_arr(m.subrange(0, i as int), na),
                        out@.len() == i,
                    decreases a@.len() - i,
                {
                    proof {
                        assert(*v == Json::Arr(*a));
                        assert(decreases_to!(*v => v->Arr_0));
                        assert(v->Arr_0 == *a);
                        assert(decreases_to!(*a => a@));
                        assert(decreases_to!(a@ => a@[i as int]));
                        assert(decreases_to!(*v => a@[i as int]));
                    }
                    let n = norm_exec(&a[i], na);
                    let ghost prevo = out@;
                    out.push(n);
                    proof {
                        lemma_jval_arr(a@);
                        lemma_jval_arr(prevo);
                        lemma_jval_arr(out@);
                        let pre = m.subrange(0, i as int);
                        let cur = m.subrange(0, i + 1);
                        lemma_norm_arr(pre, na);
                        lemma_norm_arr(cur, na);
                        assert forall|q: int| 0 <= q < out@.len() implies jval_arr(out@)[q]
                            == norm_arr(cur, na)[q] by {
                            assert(jval_arr(out@)[q] == jval(out@[q]));
                            if q < prevo.len() {
                                assert(out@[q] == prevo[q]);
                                assert(jval_arr(prevo)[q] == jval(prevo[q]));
                                assert(pre[q] == cur[q]);
                            } else {
                                assert(cur[q] == m[q]);
                            }
                        }
                        assert(jval_arr(out@) =~= norm_arr(cur, na));
                    }
                    i = i + 1;
                }
                proof {
                    assert(m.subrange(0, a@.len() as int) =~= m);
                }
                Json::Arr(out)
            }
        },
        Json::Obj(o) => {
            let ghost m = jval_obj(o@);
            proof {
                lemma_jval_obj(o@);
            }
            let mut pairs: Vec<(Vec<char>, Json)> = Vec::new();
            let mut i: usize = 0;
            proof {
                lemma_pviews(pairs@);
                lemma_norm_obj(m.subrange(0, 0), na);
                assert(pviews(pairs@) =~= norm_obj(m.subrange(0, 0), na));
            }
            while i < o.len()
                invariant
                    i <= o@.len(),
                    m == jval_obj(o@),
                    pviews(pairs@) == norm_obj(m.subrange(0, i as int), na),
                decreases o@.len() - i,
            {
                let key = clone_chars(&o[i].0);
                proof {
                    assert(*v == Json::Obj(*o));
                    assert(decreases_to!(*v => v->Obj_0));
                    assert(v->Obj_0 == *o);
                    assert(decreases_to!(*o => o@));
                    assert(decreases_to!(o@ => o@[i as int]));
                    assert(decreases_to!(o@[i as int] => o@[i as int].1));
                    assert(decreases_to!(*v => o@[i as int].1));
                }
                let n = norm_exec(&o[i].1, na);
                let ghost prev = pairs@;
                pairs.push((key, n));
                proof {
                    lemma_jval_obj(o@);
                    lemma_pviews(prev);
                    lemma_pviews(pairs@);
                    let pre = m.subrange(0, i as int);
                    let cur = m.subrange(0, i + 1);
                    lemma_norm_obj(pre, na);
                    lemma_norm_obj(cur, na);
                    assert(cur[i as int] == m[i as int]);
                    assert(jval(n) == norm(m[i as int].1, na));
                    assert(key@ == m[i as int].0);
                    assert forall|q: int| 0 <= q < pairs@.len() implies pviews(pairs@)[q]
                        == norm_obj(cur, na)[q] by {
                        assert(pviews(pairs@)[q] == pview(pairs@[q]));
                        if q < prev.len() {
                            assert(pairs@[q] == prev[q]);
                            assert(pviews(prev)[q] == pview(prev[q]));
                            assert(pre[q] == cur[q]);
                            assert(norm_obj(pre, na)[q] == norm_obj(cur, na)[q]);
                        } else {
                            assert(pairs@[q] == (key, n));
                            assert(norm_obj(cur, na)[q] == (cur[q].0, norm(cur[q].1, na)));
                        }
                    }
                    assert(pviews(pairs@) =~= norm_obj(cur, na));
                }
                i = i + 1;
            }
            proof {
                assert(m.subrange(0, o@.len() as int) =~= m);
            }
            let sorted = sort_pairs_exec(pairs);
            proof {
                lemma_pviews(sorted@);
                lemma_jval_obj(sorted@);
                assert forall|q: int| 0 <= q < sorted@.len() implies jval_obj(sorted@)[q]
                    == pviews(sorted@)[q] by {
                    assert(jval_obj(sorted@)[q] == (sorted@[q].0@, jval(sorted@[q].1)));
                    assert(pviews(sorted@)[q] == pview(sorted@[q]));
                }
                assert(jval_obj(sorted@) =~= pviews(sorted@));
            }
            Json::Obj(sorted)
        },
    }
}

/// The canonical form of `v`: object keys sorted everywhere, and, when
/// `normalize_array` is set, array elements sorted by their content
/// fingerprint with ties keeping their original order.
pub fn normalize_value(v: Json, normalize_array: bool) -> (r: Json)
    ensures
        r@ == norm(v@, normalize_array),
{
    norm_exec(&v, normalize_array)
}

} // verus!
