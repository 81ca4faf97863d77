//! Stable insertion sort of `(key, value)` pairs by lexicographic key order.
//!
//! Canonicalization orders object entries by their key and array elements by
//! their fingerprint. A stable sort breaks ties between equal keys by the
//! original position, so the canonical form does not depend on the input order
//! except between elements whose keys collide.

use vstd::prelude::*;
use vstd::seq_lib::group_to_multiset_ensures;
use vstd::seq_lib::lemma_multiset_commutative;
use vstd::multiset::group_multiset_axioms;

use crate::strutil::{
    chars_lt, lemma_lex_le_antisym, lemma_lex_le_total, lemma_lex_le_trans, lex_le, lex_lt,
};
use crate::value::{jval, JVal, Json};

verus! {

/// The model of one executable pair.
pub open spec fn pview(p: (Vec<char>, Json)) -> (Seq<char>, JVal) {
    (p.0@, jval(p.1))
}

/// The models of a sequence of executable pairs.
pub open spec fn pviews(s: Seq<(Vec<char>, Json)>) -> Seq<(Seq<char>, JVal)>
    decreases s.len(),
{
    if s.len() == 0 {
        Seq::empty()
    } else {
        seq![pview(s[0])] + pviews(s.subrange(1, s.len() as int))
    }
}

pub proof fn lemma_pviews(s: Seq<(Vec<char>, Json)>)
    ensures
        pviews(s).len() == s.len(),
        forall|i: int| 0 <= i < s.len() ==> pviews(s)[i] == pview(s[i]),
    decreases s.len(),
{
    if s.len() > 0 {
        lemma_pviews(s.subrange(1, s.len() as int));
    }
}

/// Pairs in weakly ascending key order.
pub open spec fn sorted_pairs(s: Seq<(Seq<char>, JVal)>) -> bool {
    forall|i: int, j: int| 0 <= i < j < s.len() ==> lex_le(s[i].0, s[j].0)
}

/// No two pairs share a key.
pub open spec fn distinct_keys(s: Seq<(Seq<char>, JVal)>) -> bool {
    forall|i: int, j: int| 0 <= i < j < s.len() ==> s[i].0 != s[j].0
}

/// Inserts `x` behind every pair whose key is not strictly greater, so that
/// insertion is stable.
pub open spec fn insert_pair(
    x: (Seq<char>, JVal),
    s: Seq<(Seq<char>, JVal)>,
) -> Seq<(Seq<char>, JVal)>
    decreases s.len(),
{
    if s.len() == 0 {
        seq![x]
    } else if lex_lt(x.0, s[0].0) {
        seq![x] + s
    } else {
        seq![s[0]] + insert_pair(x, s.subrange(1, s.len() as int))
    }
}

/// Stable insertion sort by key.
pub open spec fn sort_pairs(s: Seq<(Seq<char>, JVal)>) -> Seq<(Seq<char>, JVal)>
    decreases s.len(),
{
    if s.len() == 0 {
        Seq::empty()
    } else {
        insert_pair(s[s.len() - 1], sort_pairs(s.subrange(0, s.len() - 1)))
    }
}

pub proof fn lemma_insert_pair_multiset(x: (Seq<char>, JVal), s: Seq<(Seq<char>, JVal)>)
    ensures
        insert_pair(x, s).to_multiset() =~= s.to_multiset().insert(x),
        insert_pair(x, s).len() == s.len() + 1,
    decreases s.len(),
{
    broadcast use group_to_multiset_ensures;
    broadcast use group_multiset_axioms;

    if s.len() == 0 {
        assert(seq![x] =~= Seq::<(Seq<char>, JVal)>::empty().push(x));
        assert(s =~= Seq::<(Seq<char>, JVal)>::empty());
    } else if lex_lt(x.0, s[0].0) {
        lemma_multiset_commutative(seq![x], s);
        assert(seq![x] =~= Seq::<(Seq<char>, JVal)>::empty().push(x));
        assert((seq![x] + s).to_multiset() =~= s.to_multiset().insert(x));
    } else {
        let t = s.subrange(1, s.len() as int);
        lemma_insert_pair_multiset(x, t);
        lemma_multiset_commutative(seq![s[0]], insert_pair(x, t));
        lemma_multiset_commutative(seq![s[0]], t);
        assert(s =~= seq![s[0]] + t);
        assert(seq![s[0]] =~= Seq::<(Seq<char>, JVal)>::empty().push(s[0]));
        assert((seq![s[0]] + insert_pair(x, t)).to_multiset() =~= s.to_multiset().insert(x));
    }
}

pub proof fn lemma_insert_pair_sorted(x: (Seq<char>, JVal), s: Seq<(Seq<char>, JVal)>)
    requires
        sorted_pairs(s),
    ensures
        sorted_pairs(insert_pair(x, s)),
    decreases s.len(),
{
    broadcast use group_to_multiset_ensures;
    broadcast use group_multiset_axioms;

    if s.len() == 0 {
    } else if lex_lt(x.0, s[0].0) {
        let r = seq![x] + s;
        assert forall|i: int, j: int| 0 <= i < j < r.len() implies lex_le(r[i].0, r[j].0) by {
            lemma_lex_le_total(x.0, s[0].0);
            if i == 0 {
                if j > 1 {
                    lemma_lex_le_trans(x.0, s[0].0, s[j - 1].0);
                }
            }
        }
    } else {
        let t = s.subrange(1, s.len() as int);
        lemma_insert_pair_sorted(x, t);
        lemma_insert_pair_multiset(x, t);
        let r = seq![s[0]] + insert_pair(x, t);
        assert forall|i: int, j: int| 0 <= i < j < r.len() implies lex_le(r[i].0, r[j].0) by {
            if i == 0 {
                let e = r[j];
                assert(insert_pair(x, t).to_multiset().contains(e)) by {
                    assert(insert_pair(x, t)[j - 1] == e);
                    assert(insert_pair(x, t).contains(e));
                }
                assert(e == x || t.to_multiset().contains(e));
                if e == x {
                    lemma_lex_le_total(x.0, s[0].0);
                } else {
                    assert(t.contains(e));
                    let k = choose|k: int| 0 <= k < t.len() && t[k] == e;
                    assert(s[k + 1] == e);
                    assert(lex_le(s[0].0, e.0));
                }
            }
        }
    }
}

pub proof fn lemma_sort_pairs(s: Seq<(Seq<char>, JVal)>)
    ensures
        sorted_pairs(sort_pairs(s)),
        sort_pairs(s).to_multiset() =~= s.to_multiset(),
        sort_pairs(s).len() == s.len(),
    decreases s.len(),
{
    broadcast use group_to_multiset_ensures;
    broadcast use group_multiset_axioms;

    if s.len() > 0 {
        let front = s.subrange(0, s.len() - 1);
        let x = s[s.len() - 1];
        lemma_sort_pairs(front);
        lemma_insert_pair_sorted(x, sort_pairs(front));
        lemma_insert_pair_multiset(x, sort_pairs(front));
        assert(s =~= front.push(x));
        assert(front.push(x).to_multiset() =~= front.to_multiset().insert(x));
    }
}

/// Inserting a pair whose key is greatest appends it.
pub proof fn lemma_insert_pair_ge(x: (Seq<char>, JVal), s: Seq<(Seq<char>, JVal)>)
    requires
        forall|i: int| 0 <= i < s.len() ==> !lex_lt(x.0, #[trigger] s[i].0),
    ensures
        insert_pair(x, s) == s.push(x),
    decreases s.len(),
{
    if s.len() == 0 {
        assert(insert_pair(x, s) =~= s.push(x));
    } else {
        let t = s.subrange(1, s.len() as int);
        assert(forall|i: int| 0 <= i < t.len() ==> !lex_lt(x.0, #[trigger] t[i].0)) by {
            assert(forall|i: int| 0 <= i < t.len() ==> t[i] == s[i + 1]);
        }
        lemma_insert_pair_ge(x, t);
        assert(insert_pair(x, s) =~= s.push(x));
    }
}

/// Sorting an already sorted sequence leaves it unchanged.
pub proof fn lemma_sort_pairs_of_sorted(s: Seq<(Seq<char>, JVal)>)
    requires
        sorted_pairs(s),
    ensures
        sort_pairs(s) == s,
    decreases s.len(),
{
    if s.len() > 0 {
        let front = s.subrange(0, s.len() - 1);
        let x = s[s.len() - 1];
        lemma_sort_pairs_of_sorted(front);
        assert(forall|i: int| 0 <= i < front.len() ==> lex_le(#[trigger] front[i].0, x.0));
        assert forall|i: int| 0 <= i < front.len() implies !lex_lt(x.0, #[trigger] front[i].0) by {
            assert(lex_le(front[i].0, x.0));
        }
        lemma_insert_pair_ge(x, front);
        assert(front.push(x) =~= s);
    }
}

/// Two sorted sequences with the same pairs and pairwise distinct keys are equal.
pub proof fn lemma_sorted_pairs_unique(a: Seq<(Seq<char>, JVal)>, b: Seq<(Seq<char>, JVal)>)
    requires
        sorted_pairs(a),
        sorted_pairs(b),
        distinct_keys(a),
        a.to_multiset() == b.to_multiset(),
    ensures
        a == b,
    decreases a.len(),
{
    broadcast use group_to_multiset_ensures;
    broadcast use group_multiset_axioms;

    if a.len() == 0 || b.len() == 0 {
        a.to_multiset_ensures();
        b.to_multiset_ensures();
        assert(a.to_multiset().len() == b.to_multiset().len());
        assert(a =~= b);
    } else {
        assert(a.to_multiset().contains(a[0]));
        assert(b.to_multiset().contains(b[0]));
        assert(a.contains(b[0]));
        assert(b.contains(a[0]));
        let i = choose|i: int| 0 <= i < a.len() && a[i] == b[0];
        let j = choose|j: int| 0 <= j < b.len() && b[j] == a[0];
        if i > 0 {
            assert(lex_le(a[0].0, a[i].0));
            assert(lex_le(b[0].0, b[j].0));
            lemma_lex_le_antisym(a[0].0, b[0].0);
            assert(a[i].0 == a[0].0);
            assert(false);
        }
        assert(a[0] == b[0]);
        let ta = a.subrange(1, a.len() as int);
        let tb = b.subrange(1, b.len() as int);
        assert(ta =~= a.remove(0));
        assert(tb =~= b.remove(0));
        assert(ta.to_multiset() =~= a.to_multiset().remove(a[0]));
        assert(tb.to_multiset() =~= b.to_multiset().remove(b[0]));
        assert(forall|p: int, q: int| 0 <= p < q < ta.len() ==> ta[p] == a[p + 1] && ta[q] == a[q + 1]);
        lemma_sorted_pairs_unique(ta, tb);
        assert forall|k: int| 0 <= k < a.len() implies a[k] == b[k] by {
            if k > 0 {
                assert(ta[k - 1] == a[k]);
                assert(tb[k - 1] == b[k]);
            }
        }
        assert(a =~= b);
    }
}

/// The position in sorted `arr` behind every pair whose key is not strictly
/// greater than the key of `x`.
fn find_pos(arr: &Vec<(Vec<char>, Json)>, x: &(Vec<char>, Json)) -> (j: usize)
    ensures
        j <= arr@.len(),
        forall|k: int| 0 <= k < j ==> !lex_lt(x.0@, #[trigger] arr@[k].0@),
        j < arr@.len() ==> lex_lt(x.0@, arr@[j as int].0@),
{
    let n = arr.len();
    let mut j: usize = 0;
    while j < n
        invariant
            j <= n,
            n == arr@.len(),
            forall|k: int| 0 <= k < j ==> !lex_lt(x.0@, #[trigger] arr@[k].0@),
        decreases n - j,
    {
        if chars_lt(&x.0, &arr[j].0) {
            return j;
        }
        j = j + 1;
    }
    j
}

/// Inserts `x` into the sorted vector `arr`, after every pair whose key is not
/// strictly greater than the key of `x`.
pub(crate) fn insert_pair_exec(arr: &mut Vec<(Vec<char>, Json)>, x: (Vec<char>, Json))
    ensures
        pviews(final(arr)@) == insert_pair(pview(x), pviews(old(arr)@)),
{
    let j = find_pos(arr, &x);
    proof {
        lemma_pviews(arr@);
    }
    let ghost jj = j as int;
    let ghost sv = pviews(arr@);
    arr.insert(j, x);
    proof {
        lemma_insert_pair_split(pview(x), sv, jj);
        lemma_pviews(arr@);
        assert(arr@ =~= old(arr)@.subrange(0, jj) + seq![x] + old(arr)@.subrange(
            jj,
            old(arr)@.len() as int,
        ));
        assert(pviews(arr@) =~= sv.subrange(0, jj) + seq![pview(x)] + sv.subrange(
            jj,
            sv.len() as int,
        ));
    }
}

/// Where the scan in `insert_pair_exec` stops is where `insert_pair` puts `x`.
proof fn lemma_insert_pair_split(x: (Seq<char>, JVal), s: Seq<(Seq<char>, JVal)>, j: int)
    requires
        0 <= j <= s.len(),
        forall|k: int| 0 <= k < j ==> !lex_lt(x.0, #[trigger] s[k].0),
        j < s.len() ==> lex_lt(x.0, s[j].0),
    ensures
        insert_pair(x, s) == s.subrange(0, j) + seq![x] + s.subrange(j, s.len() as int),
    decreases s.len(),
{
    if j == 0 {
        if s.len() == 0 {
            assert(insert_pair(x, s) =~= s.subrange(0, 0) + seq![x] + s.subrange(0, 0));
        } else {
            assert(lex_lt(x.0, s[0].0));
            assert(s.subrange(0, s.len() as int) =~= s);
            assert(insert_pair(x, s) =~= s.subrange(0, 0) + seq![x] + s.subrange(
                0,
                s.len() as int,
            ));
        }
    } else {
        let t = s.subrange(1, s.len() as int);
        assert(forall|k: int| 0 <= k < t.len() ==> t[k] == s[k + 1]);
        lemma_insert_pair_split(x, t, j - 1);
        assert(!lex_lt(x.0, s[0].0));
        assert(insert_pair(x, s) == seq![s[0]] + insert_pair(x, t));
        assert(t.subrange(0, j - 1) =~= s.subrange(1, j));
        assert(t.subrange(j - 1, t.len() as int) =~= s.subrange(j, s.len() as int));
        assert(seq![s[0]] + s.subrange(1, j) =~= s.subrange(0, j));
        assert(insert_pair(x, s) =~= s.subrange(0, j) + seq![x] + s.subrange(j, s.len() as int));
    }
}

/// Sorts the pairs by key, stably.
pub(crate) fn sort_pairs_exec(v: Vec<(Vec<char>, Json)>) -> (r: Vec<(Vec<char>, Json)>)
    ensures
        pviews(r@) == sort_pairs(pviews(v@)),
{
    let ghost orig = pviews(v@);
    proof {
        lemma_pviews(v@);
    }
    let mut rest = v;
    let mut acc: Vec<(Vec<char>, Json)> = Vec::new();
    let ghost total = orig.len() as int;
    proof {
        assert(orig.subrange(0, total) =~= orig);
        assert(orig.subrange(0, 0) =~= Seq::<(Seq<char>, JVal)>::empty());
        assert(pviews(acc@).len() == 0);
        assert(sort_pairs(orig.subrange(0, 0)) =~= Seq::<(Seq<char>, JVal)>::empty());
        assert(pviews(acc@) =~= sort_pairs(orig.subrange(0, 0)));
    }
    while rest.len() > 0
        invariant
            rest@.len() <= total,
            total == orig.len(),
            pviews(rest@) == orig.subrange(total - rest@.len(), total),
            pviews(acc@) == sort_pairs(orig.subrange(0, total - rest@.len())),
        decreases rest@.len(),
    {
        let ghost i = total - rest@.len();
        let ghost prev = rest@;
        let x = rest.remove(0);
        proof {
            lemma_pviews(prev);
            lemma_pviews(rest@);
            assert(rest@ =~= prev.subrange(1, prev.len() as int));
            assert(pviews(prev) == orig.subrange(i, total));
            assert(pviews(prev)[0] == pview(prev[0]));
            assert(orig.subrange(i, total)[0] == orig[i]);
            assert(pview(x) == orig[i]);
            assert forall|k: int| 0 <= k < rest@.len() implies pviews(rest@)[k] == orig.subrange(
                i + 1,
                total,
            )[k] by {
                assert(pviews(rest@)[k] == pview(rest@[k]));
                assert(rest@[k] == prev[k + 1]);
                assert(pviews(prev)[k + 1] == pview(prev[k + 1]));
                assert(orig.subrange(i, total)[k + 1] == orig[i + 1 + k]);
            }
            assert(pviews(rest@).len() == rest@.len());
            assert(pviews(rest@) =~= orig.subrange(i + 1, total));
        }
        insert_pair_exec(&mut acc, x);
        proof {
            let snext = orig.subrange(0, i + 1);
            assert(snext[snext.len() - 1] == orig[i]);
            assert(snext.subrange(0, snext.len() - 1) =~= orig.subrange(0, i));
            assert(pviews(acc@) == sort_pairs(snext));
        }
    }
    proof {
        assert(orig.subrange(0, total) =~= orig);
    }
    acc
}

/// Key distinctness carries over to any permutation.
pub proof fn lemma_distinct_keys_perm(src: Seq<(Seq<char>, JVal)>, dst: Seq<(Seq<char>, JVal)>)
    requires
        src.to_multiset() == dst.to_multiset(),
        distinct_keys(src),
    ensures
        distinct_keys(dst),
{
    broadcast use group_to_multiset_ensures;
    broadcast use group_multiset_axioms;

    assert forall|i: int, j: int| 0 <= i < j < dst.len() implies dst[i].0 != dst[j].0 by {
        if dst[i].0 == dst[j].0 {
            let e1 = dst[i];
            let e2 = dst[j];
            if e1 == e2 {
                let dr = dst.remove(i);
                assert(dr.to_multiset() =~= dst.to_multiset().remove(e1));
                assert(dr[j - 1] == e1);
                assert(dr.contains(e1));
                assert(dr.to_multiset().count(e1) > 0);
                assert(src.to_multiset().count(e1) >= 2);
                assert(src.contains(e1));
                let p = choose|p: int| 0 <= p < src.len() && src[p] == e1;
                let sr = src.remove(p);
                assert(sr.to_multiset() =~= src.to_multiset().remove(e1));
                assert(sr.to_multiset().count(e1) > 0);
                assert(sr.contains(e1));
                let q = choose|q: int| 0 <= q < sr.len() && sr[q] == e1;
                if q < p {
                    assert(src[q] == e1);
                } else {
                    assert(src[q + 1] == e1);
                }
                assert(false);
            } else {
                assert(dst.contains(e1));
                assert(dst.contains(e2));
                assert(src.to_multiset().count(e1) > 0);
                assert(src.to_multiset().count(e2) > 0);
                assert(src.contains(e1));
                assert(src.contains(e2));
                let p = choose|p: int| 0 <= p < src.len() && src[p] == e1;
                let q = choose|q: int| 0 <= q < src.len() && src[q] == e2;
                assert(p != q);
                assert(false);
            }
        }
    }
}

} // verus!
