//! The global properties of canonicalization: idempotence, and independence
//! from the insertion order of object entries and (under array normalization,
//! up to fingerprint ties) of array elements.

use vstd::prelude::*;
use vstd::multiset::group_multiset_axioms;
use vstd::seq_lib::group_to_multiset_ensures;
use vstd::seq_lib::lemma_multiset_commutative;

use crate::canon::{
    fp, key_arr, lemma_key_arr, lemma_norm_arr, lemma_norm_obj, lemma_vals, norm, norm_arr,
    norm_obj, vals,
};
use crate::sort::{
    distinct_keys, lemma_distinct_keys_perm, lemma_sort_pairs, lemma_sort_pairs_of_sorted,
    lemma_sorted_pairs_unique, sort_pairs,
};
use crate::value::{lemma_wf_arr, lemma_wf_obj, wf, JVal};

verus! {

/// Everything a sorted sequence holds was in the sequence it was sorted from.
proof fn lemma_sorted_element_source(s: Seq<(Seq<char>, JVal)>, j: int) -> (i: int)
    requires
        0 <= j < sort_pairs(s).len(),
    ensures
        0 <= i < s.len(),
        s[i] == sort_pairs(s)[j],
{
    broadcast use group_to_multiset_ensures;
    broadcast use group_multiset_axioms;

    lemma_sort_pairs(s);
    let srt = sort_pairs(s);
    assert(srt.contains(srt[j]));
    assert(srt.to_multiset().count(srt[j]) > 0);
    assert(s.to_multiset().count(srt[j]) > 0);
    assert(s.contains(srt[j]));
    choose|i: int| 0 <= i < s.len() && s[i] == srt[j]
}

/// Canonicalization is idempotent: normalizing a canonical form returns it
/// unchanged, for every value and both array modes.
pub proof fn lemma_normalize_idempotent(v: JVal, na: bool)
    ensures
        norm(norm(v, na), na) == norm(v, na),
    decreases v,
{
    broadcast use group_to_multiset_ensures;
    broadcast use group_multiset_axioms;

    match v {
        JVal::Null => {},
        JVal::Bool(_) => {},
        JVal::Num(_) => {},
        JVal::Str(_) => {},
        JVal::Arr(a) => {
            let n = norm_arr(a, na);
            lemma_norm_arr(a, na);
            assert forall|i: int| 0 <= i < n.len() implies norm(#[trigger] n[i], na) == n[i] by {
                assert(decreases_to!(v => a));
                assert(decreases_to!(a => a[i]));
                lemma_normalize_idempotent(a[i], na);
            }
            if na {
                let k = key_arr(n);
                let srt = sort_pairs(k);
                let r = vals(srt);
                lemma_key_arr(n);
                lemma_sort_pairs(k);
                lemma_vals(srt);
                assert forall|j: int| 0 <= j < srt.len() implies norm(
                    (#[trigger] srt[j]).1,
                    na,
                ) == srt[j].1 && srt[j].0 == fp(srt[j].1) by {
                    let i = lemma_sorted_element_source(k, j);
                    assert(k[i] == (fp(n[i]), n[i]));
                }
                lemma_norm_arr(r, na);
                assert(norm_arr(r, na) =~= r);
                lemma_key_arr(r);
                assert(key_arr(r) =~= srt);
                lemma_sort_pairs_of_sorted(srt);
                assert(vals(sort_pairs(key_arr(norm_arr(r, na)))) == r);
                assert(norm(norm(v, na), na) == norm(v, na));
            } else {
                lemma_norm_arr(n, na);
                assert(norm_arr(n, na) =~= n);
            }
        },
        JVal::Obj(o) => {
            let n = norm_obj(o, na);
            let srt = sort_pairs(n);
            lemma_norm_obj(o, na);
            lemma_sort_pairs(n);
            assert forall|j: int| 0 <= j < srt.len() implies norm(
                (#[trigger] srt[j]).1,
                na,
            ) == srt[j].1 by {
                let i = lemma_sorted_element_source(n, j);
                assert(n[i] == (o[i].0, norm(o[i].1, na)));
                assert(decreases_to!(v => o));
                assert(decreases_to!(o => o[i]));
                assert(decreases_to!(o[i] => o[i].1));
                lemma_normalize_idempotent(o[i].1, na);
            }
            lemma_norm_obj(srt, na);
            assert(norm_obj(srt, na) =~= srt);
            lemma_sort_pairs_of_sorted(srt);
            assert(norm(norm(v, na), na) == norm(v, na));
        },
    }
}

/// Mapping a function over two sequences with the same elements gives two
/// sequences with the same elements.
proof fn lemma_map_values_multiset<A, B>(s1: Seq<A>, s2: Seq<A>, f: spec_fn(A) -> B)
    requires
        s1.to_multiset() == s2.to_multiset(),
    ensures
        s1.map_values(f).to_multiset() =~= s2.map_values(f).to_multiset(),
    decreases s1.len(),
{
    broadcast use group_to_multiset_ensures;
    broadcast use group_multiset_axioms;

    assert(s1.to_multiset().len() == s2.to_multiset().len());
    if s1.len() == 0 {
        s1.to_multiset_ensures();
        s2.to_multiset_ensures();
        assert(s2.len() == 0);
        assert(s1.map_values(f) =~= s2.map_values(f));
    } else {
        let e = s1[0];
        assert(s1.contains(e));
        assert(s1.to_multiset().count(e) > 0);
        assert(s2.to_multiset().count(e) > 0);
        assert(s2.contains(e));
        let j = choose|j: int| 0 <= j < s2.len() && s2[j] == e;
        let t1 = s1.subrange(1, s1.len() as int);
        let s2r = s2.remove(j);
        assert(t1 =~= s1.remove(0));
        assert(t1.to_multiset() =~= s1.to_multiset().remove(e));
        assert(s2r.to_multiset() =~= s2.to_multiset().remove(e));
        lemma_map_values_multiset(t1, s2r, f);
        assert(s1.map_values(f) =~= seq![f(e)] + t1.map_values(f));
        lemma_multiset_commutative(seq![f(e)], t1.map_values(f));
        assert(seq![f(e)] =~= Seq::<B>::empty().push(f(e)));
        assert((seq![f(e)] + t1.map_values(f)).to_multiset() =~= t1.map_values(
            f,
        ).to_multiset().insert(f(e)));
        assert(s2r.map_values(f) =~= s2.map_values(f).remove(j));
        assert(s2.map_values(f).remove(j).to_multiset() =~= s2.map_values(f).to_multiset().remove(
            f(e),
        ));
        assert(s2.map_values(f)[j] == f(e));
        assert(s2.map_values(f).contains(f(e)));
        assert(s2.map_values(f).to_multiset().count(f(e)) > 0);
        assert(s1.map_values(f).to_multiset() =~= s2.map_values(f).to_multiset());
    }
}

/// Two objects holding the same entries in any insertion order normalize to
/// the same canonical form (keys unique, as the data model asks).
pub proof fn lemma_normalize_object_order(
    o1: Seq<(Seq<char>, JVal)>,
    o2: Seq<(Seq<char>, JVal)>,
    na: bool,
)
    requires
        o1.to_multiset() == o2.to_multiset(),
        distinct_keys(o1),
    ensures
        norm(JVal::Obj(o1), na) == norm(JVal::Obj(o2), na),
{
    broadcast use group_to_multiset_ensures;
    broadcast use group_multiset_axioms;

    let f = |e: (Seq<char>, JVal)| (e.0, norm(e.1, na));
    lemma_norm_obj(o1, na);
    lemma_norm_obj(o2, na);
    assert(norm_obj(o1, na) =~= o1.map_values(f));
    assert(norm_obj(o2, na) =~= o2.map_values(f));
    lemma_map_values_multiset(o1, o2, f);
    lemma_sort_pairs(norm_obj(o1, na));
    lemma_sort_pairs(norm_obj(o2, na));
    assert(distinct_keys(norm_obj(o1, na))) by {
        assert forall|i: int, j: int| 0 <= i < j < norm_obj(o1, na).len() implies norm_obj(
            o1,
            na,
        )[i].0 != norm_obj(o1, na)[j].0 by {
            assert(norm_obj(o1, na)[i].0 == o1[i].0);
            assert(norm_obj(o1, na)[j].0 == o1[j].0);
        }
    }
    lemma_distinct_keys_perm(norm_obj(o1, na), sort_pairs(norm_obj(o1, na)));
    lemma_sorted_pairs_unique(sort_pairs(norm_obj(o1, na)), sort_pairs(norm_obj(o2, na)));
}

/// Two arrays holding the same elements in any order normalize, with array
/// normalization on, to the same canonical form — provided no two distinct
/// elements share a fingerprint, since fingerprint ties are broken by the
/// original order.
pub proof fn lemma_normalize_array_order(a1: Seq<JVal>, a2: Seq<JVal>)
    requires
        a1.to_multiset() == a2.to_multiset(),
        forall|i: int, j: int|
            0 <= i < j < a1.len() ==> fp(norm(#[trigger] a1[i], true)) != fp(
                norm(#[trigger] a1[j], true),
            ),
    ensures
        norm(JVal::Arr(a1), true) == norm(JVal::Arr(a2), true),
{
    broadcast use group_to_multiset_ensures;
    broadcast use group_multiset_axioms;

    let f = |e: JVal| norm(e, true);
    let g = |e: JVal| (fp(e), e);
    lemma_norm_arr(a1, true);
    lemma_norm_arr(a2, true);
    assert(norm_arr(a1, true) =~= a1.map_values(f));
    assert(norm_arr(a2, true) =~= a2.map_values(f));
    lemma_map_values_multiset(a1, a2, f);
    let n1 = norm_arr(a1, true);
    let n2 = norm_arr(a2, true);
    lemma_key_arr(n1);
    lemma_key_arr(n2);
    assert(key_arr(n1) =~= n1.map_values(g));
    assert(key_arr(n2) =~= n2.map_values(g));
    lemma_map_values_multiset(n1, n2, g);
    lemma_sort_pairs(key_arr(n1));
    lemma_sort_pairs(key_arr(n2));
    assert(distinct_keys(key_arr(n1))) by {
        assert forall|i: int, j: int| 0 <= i < j < key_arr(n1).len() implies key_arr(n1)[i].0
            != key_arr(n1)[j].0 by {
            assert(key_arr(n1)[i].0 == fp(n1[i]));
            assert(key_arr(n1)[j].0 == fp(n1[j]));
            assert(n1[i] == norm(a1[i], true));
            assert(n1[j] == norm(a1[j], true));
        }
    }
    lemma_distinct_keys_perm(key_arr(n1), sort_pairs(key_arr(n1)));
    lemma_sorted_pairs_unique(sort_pairs(key_arr(n1)), sort_pairs(key_arr(n2)));
}

/// Canonicalization preserves well-formedness.
pub proof fn lemma_normalize_wf(v: JVal, na: bool)
    requires
        wf(v),
    ensures
        wf(norm(v, na)),
    decreases v,
{
    broadcast use group_to_multiset_ensures;
    broadcast use group_multiset_axioms;

    match v {
        JVal::Null => {},
        JVal::Bool(_) => {},
        JVal::Num(_) => {},
        JVal::Str(_) => {},
        JVal::Arr(a) => {
            let n = norm_arr(a, na);
            lemma_norm_arr(a, na);
            lemma_wf_arr(a);
            assert forall|i: int| 0 <= i < n.len() implies wf(#[trigger] n[i]) by {
                assert(decreases_to!(v => a));
                assert(decreases_to!(a => a[i]));
                lemma_normalize_wf(a[i], na);
            }
            if na {
                let k = key_arr(n);
                let srt = sort_pairs(k);
                let r = vals(srt);
                lemma_key_arr(n);
                lemma_sort_pairs(k);
                lemma_vals(srt);
                assert forall|j: int| 0 <= j < r.len() implies wf(#[trigger] r[j]) by {
                    let i = lemma_sorted_element_source(k, j);
                    assert(k[i] == (fp(n[i]), n[i]));
                }
                lemma_wf_arr(r);
                assert(wf(norm(v, na)));
            } else {
                lemma_wf_arr(n);
                assert(wf(norm(v, na)));
            }
        },
        JVal::Obj(o) => {
            let n = norm_obj(o, na);
            let srt = sort_pairs(n);
            lemma_norm_obj(o, na);
            lemma_sort_pairs(n);
            lemma_wf_obj(o);
            assert forall|j: int| 0 <= j < srt.len() implies wf((#[trigger] srt[j]).1) by {
                let i = lemma_sorted_element_source(n, j);
                assert(n[i] == (o[i].0, norm(o[i].1, na)));
                assert(decreases_to!(v => o));
                assert(decreases_to!(o => o[i]));
                assert(decreases_to!(o[i] => o[i].1));
                lemma_normalize_wf(o[i].1, na);
            }
            lemma_wf_obj(srt);
            assert(wf(norm(v, na)));
        },
    }
}

} // verus!
