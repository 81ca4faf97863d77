//! The canonical text determines the canonical value: on well-formed values
//! the indented serialization is injective, so an empty diff means equal
//! canonical forms and not merely equal texts.

use vstd::prelude::*;

use crate::pretty::{pp, pp_arr, pp_entry, pp_obj};
use crate::strutil::{esc, esc_char, hex_digit, spaces};
use crate::value::{lemma_wf_arr, lemma_wf_obj, num_char, wf, JVal};

verus! {

/// Characters with equal code points are equal.
proof fn lemma_char_code_inj(c1: char, c2: char)
    requires
        (c1 as u32) == (c2 as u32),
    ensures
        c1 == c2,
{
}

/// Dropping a common prefix of equal concatenations leaves equal remainders.
proof fn lemma_cancel(x: Seq<char>, r1: Seq<char>, r2: Seq<char>)
    requires
        x + r1 == x + r2,
    ensures
        r1 == r2,
{
    broadcast use vstd::seq::group_seq_axioms;

    let n = x.len() as int;
    assert((x + r1).len() == x.len() + r1.len());
    assert((x + r2).len() == x.len() + r2.len());
    assert((x + r1).len() == (x + r2).len());
    assert(r1.len() == r2.len());
    assert((x + r1).subrange(n, (x + r1).len() as int) =~= r1);
    assert((x + r2).subrange(n, (x + r2).len() as int) =~= r2);
    assert(r1 == r2);
}

/// A character that the escaper rewrites.
spec fn escaped(c: char) -> bool {
    c == '"' || c == '\\' || (c as u32) < 32
}

/// A control character written in the `\u00XX` form.
spec fn u_escaped(c: char) -> bool {
    &&& (c as u32) < 32
    &&& c != '\u{8}'
    &&& c != '\t'
    &&& c != '\n'
    &&& c != '\u{c}'
    &&& c != '\r'
}

proof fn lemma_esc_char_head(c: char)
    ensures
        esc_char(c).len() >= 1,
        esc_char(c)[0] != '"',
        esc_char(c)[0] == '\\' <==> escaped(c),
        !escaped(c) ==> esc_char(c) == seq![c],
        escaped(c) && !u_escaped(c) ==> esc_char(c).len() == 2,
        u_escaped(c) ==> esc_char(c).len() == 6,
{
}

/// The two-character escape codes and the `\u00XX` digits pin the character.
proof fn lemma_esc_char_same(c1: char, c2: char, x1: Seq<char>, x2: Seq<char>)
    requires
        esc_char(c1) + x1 == esc_char(c2) + x2,
    ensures
        c1 == c2,
{
    let e1 = esc_char(c1);
    let e2 = esc_char(c2);
    lemma_esc_char_head(c1);
    lemma_esc_char_head(c2);
    assert((e1 + x1)[0] == e1[0]);
    assert((e2 + x2)[0] == e2[0]);
    assert(e1[0] == e2[0]);
    if !escaped(c1) && !escaped(c2) {
        assert(c1 == c2);
    } else if escaped(c1) != escaped(c2) {
        assert(false);
    } else {
        assert((e1 + x1)[1] == e1[1]);
        assert((e2 + x2)[1] == e2[1]);
        assert(e1[1] == e2[1]);
        if u_escaped(c1) && u_escaped(c2) {
            let n1 = (c1 as u32) as int;
            let n2 = (c2 as u32) as int;
            assert(e1 == seq!['\\', 'u', '0', '0', hex_digit(n1 / 16), hex_digit(n1 % 16)]);
            assert(e2 == seq!['\\', 'u', '0', '0', hex_digit(n2 / 16), hex_digit(n2 % 16)]);
            assert((e1 + x1)[4] == e1[4]);
            assert((e2 + x2)[4] == e2[4]);
            assert((e1 + x1)[5] == e1[5]);
            assert((e2 + x2)[5] == e2[5]);
            assert(hex_digit(n1 / 16) == hex_digit(n2 / 16));
            assert(hex_digit(n1 % 16) == hex_digit(n2 % 16));
            assert(n1 / 16 == n2 / 16);
            assert(n1 % 16 == n2 % 16);
            lemma_char_code_inj(c1, c2);
        } else if u_escaped(c1) || u_escaped(c2) {
            assert(false);
        } else {
            assert(c1 == c2);
        }
    }
}

/// Inside quotes the escaped text and what follows the closing quote are
/// both determined by the stream.
proof fn lemma_esc_prefix(s1: Seq<char>, s2: Seq<char>, r1: Seq<char>, r2: Seq<char>)
    requires
        esc(s1) + seq!['"'] + r1 == esc(s2) + seq!['"'] + r2,
    ensures
        s1 == s2,
        r1 == r2,
    decreases s1.len(),
{
    let l1 = esc(s1) + seq!['"'] + r1;
    let l2 = esc(s2) + seq!['"'] + r2;
    if s1.len() == 0 && s2.len() == 0 {
        assert(esc(s1) =~= Seq::<char>::empty());
        assert(l1 =~= seq!['"'] + r1);
        assert(l2 =~= seq!['"'] + r2);
        lemma_cancel(seq!['"'], r1, r2);
        assert(s1 =~= s2);
    } else if s1.len() == 0 {
        assert(esc(s1) =~= Seq::<char>::empty());
        assert(l1 =~= seq!['"'] + r1);
        assert(l1[0] == '"');
        lemma_esc_char_head(s2[0]);
        assert(esc(s2) == esc_char(s2[0]) + esc(s2.subrange(1, s2.len() as int)));
        assert(esc(s2)[0] == esc_char(s2[0])[0]);
        assert(l2[0] == esc(s2)[0]);
        assert(false);
    } else if s2.len() == 0 {
        assert(esc(s2) =~= Seq::<char>::empty());
        assert(l2 =~= seq!['"'] + r2);
        assert(l2[0] == '"');
        lemma_esc_char_head(s1[0]);
        assert(esc(s1) == esc_char(s1[0]) + esc(s1.subrange(1, s1.len() as int)));
        assert(esc(s1)[0] == esc_char(s1[0])[0]);
        assert(l1[0] == esc(s1)[0]);
        assert(false);
    } else {
        let c1 = s1[0];
        let c2 = s2[0];
        let t1 = s1.subrange(1, s1.len() as int);
        let t2 = s2.subrange(1, s2.len() as int);
        let x1 = esc(t1) + seq!['"'] + r1;
        let x2 = esc(t2) + seq!['"'] + r2;
        assert(l1 =~= esc_char(c1) + x1);
        assert(l2 =~= esc_char(c2) + x2);
        lemma_esc_char_same(c1, c2, x1, x2);
        assert(esc_char(c1) == esc_char(c2));
        lemma_cancel(esc_char(c1), x1, x2);
        lemma_esc_prefix(t1, t2, r1, r2);
        assert forall|i: int| 0 <= i < s1.len() implies s1[i] == s2[i] by {
            if i > 0 {
                assert(t1[i - 1] == s1[i]);
                assert(t2[i - 1] == s2[i]);
            }
        }
        assert(s1 =~= s2);
    }
}

/// The first character of the canonical text of a value.
spec fn opener(v: JVal) -> char {
    match v {
        JVal::Null => 'n',
        JVal::Bool(b) => if b { 't' } else { 'f' },
        JVal::Num(s) => s[0],
        JVal::Str(_) => '"',
        JVal::Arr(_) => '[',
        JVal::Obj(_) => '{',
    }
}

/// A number for each variant.
spec fn vclass(v: JVal) -> int {
    match v {
        JVal::Null => 0,
        JVal::Bool(_) => 1,
        JVal::Num(_) => 2,
        JVal::Str(_) => 3,
        JVal::Arr(_) => 4,
        JVal::Obj(_) => 5,
    }
}

proof fn lemma_pp_opener(v: JVal, d: nat)
    requires
        wf(v),
    ensures
        pp(v, d).len() > 0,
        pp(v, d)[0] == opener(v),
{
    broadcast use vstd::seq::group_seq_axioms;

    match v {
        JVal::Null => {},
        JVal::Bool(_) => {},
        JVal::Num(_) => {},
        JVal::Str(s) => {
            assert(pp(v, d)[0] == '"');
        },
        JVal::Arr(a) => {
            if a.len() > 0 {
                assert(pp(v, d)[0] == '[');
            }
        },
        JVal::Obj(o) => {
            if o.len() > 0 {
                assert(pp(v, d)[0] == '{');
            }
        },
    }
}

/// The first characters of the six variants cannot collide: `n`, `t`/`f`,
/// a digit or minus sign, `"`, `[`, `{`.
proof fn lemma_opener_class(v: JVal)
    requires
        wf(v),
    ensures
        vclass(v) == 0 ==> opener(v) == 'n',
        vclass(v) == 1 ==> (opener(v) == 't' || opener(v) == 'f'),
        vclass(v) == 2 ==> (opener(v) == '-' || ('0' <= opener(v) && opener(v) <= '9')),
        vclass(v) == 3 ==> opener(v) == '"',
        vclass(v) == 4 ==> opener(v) == '[',
        vclass(v) == 5 ==> opener(v) == '{',
{
}

/// What may follow a value in the canonical text: nothing, a separating
/// comma, or the newline before a closing bracket.
spec fn delim(r: Seq<char>) -> bool {
    r.len() == 0 || r[0] == ',' || r[0] == '\n'
}

/// In the canonical text a value and what follows it are both determined.
#[verifier::rlimit(100)]
proof fn lemma_pp_prefix(a: JVal, b: JVal, d: nat, ra: Seq<char>, rb: Seq<char>)
    requires
        wf(a),
        wf(b),
        delim(ra),
        delim(rb),
        pp(a, d) + ra == pp(b, d) + rb,
    ensures
        a == b,
        ra == rb,
    decreases a,
{
    broadcast use vstd::seq::group_seq_axioms;

    lemma_pp_opener(a, d);
    lemma_pp_opener(b, d);
    let l = pp(a, d) + ra;
    assert(l[0] == pp(a, d)[0]);
    assert((pp(b, d) + rb)[0] == pp(b, d)[0]);
    assert(opener(a) == opener(b));
    lemma_opener_class(a);
    lemma_opener_class(b);
    assert(vclass(a) == vclass(b));
    match a {
        JVal::Null => {
            match b {
                JVal::Null => {
                    lemma_cancel(pp(a, d), ra, rb);
                },
                _ => {
                    assert(false);
                },
            }
        },
        JVal::Bool(b1) => {
            match b {
                JVal::Bool(b2) => {
                    assert(b1 == b2);
                    lemma_cancel(pp(a, d), ra, rb);
                },
                _ => {
                    assert(false);
                },
            }
        },
        JVal::Num(q1) => {
            match b {
                JVal::Num(q2) => {
                    assert(l.len() == q1.len() + ra.len());
                    assert((pp(b, d) + rb).len() == q2.len() + rb.len());
                    if q1.len() < q2.len() {
                        assert(ra.len() > 0);
                        assert(l[q1.len() as int] == ra[0]);
                        assert((q2 + rb)[q1.len() as int] == q2[q1.len() as int]);
                        assert(num_char(q2[q1.len() as int]));
                        assert(false);
                    }
                    if q2.len() < q1.len() {
                        assert(rb.len() > 0);
                        assert((q2 + rb)[q2.len() as int] == rb[0]);
                        assert(l[q2.len() as int] == q1[q2.len() as int]);
                        assert(num_char(q1[q2.len() as int]));
                        assert(false);
                    }
                    assert forall|i: int| 0 <= i < q1.len() implies q1[i] == q2[i] by {
                        assert(l[i] == q1[i]);
                        assert((q2 + rb)[i] == q2[i]);
                    }
                    assert(q1 =~= q2);
                    lemma_cancel(q1, ra, rb);
                },
                _ => {
                    assert(false);
                },
            }
        },
        JVal::Str(s1) => {
            match b {
                JVal::Str(s2) => {
                    assert(pp(a, d) + ra =~= seq!['"'] + (esc(s1) + seq!['"'] + ra));
                    assert(pp(b, d) + rb =~= seq!['"'] + (esc(s2) + seq!['"'] + rb));
                    lemma_cancel(seq!['"'], esc(s1) + seq!['"'] + ra, esc(s2) + seq!['"'] + rb);
                    lemma_esc_prefix(s1, s2, ra, rb);
                },
                _ => {
                    assert(false);
                },
            }
        },
        JVal::Arr(a1) => {
            match b {
                JVal::Arr(a2) => {
                    if a1.len() == 0 && a2.len() == 0 {
                        lemma_cancel(pp(a, d), ra, rb);
                        assert(a1 =~= a2);
                    } else if a1.len() == 0 {
                        lemma_pp_arr_head(a2, d);
                        assert(l[1] == ']');
                        assert(pp(b, d)[1] == pp_arr(a2, d)[0]);
                        assert((pp(b, d) + rb)[1] == pp(b, d)[1]);
                        assert(false);
                    } else if a2.len() == 0 {
                        lemma_pp_arr_head(a1, d);
                        assert((pp(b, d) + rb)[1] == ']');
                        assert(pp(a, d)[1] == pp_arr(a1, d)[0]);
                        assert(l[1] == pp(a, d)[1]);
                        assert(false);
                    } else {
                        assert(pp(a, d) + ra =~= seq!['['] + (pp_arr(a1, d) + (seq!['\n']
                            + spaces(d) + seq![']'] + ra)));
                        assert(pp(b, d) + rb =~= seq!['['] + (pp_arr(a2, d) + (seq!['\n']
                            + spaces(d) + seq![']'] + rb)));
                        lemma_cancel(
                            seq!['['],
                            pp_arr(a1, d) + (seq!['\n'] + spaces(d) + seq![']'] + ra),
                            pp_arr(a2, d) + (seq!['\n'] + spaces(d) + seq![']'] + rb),
                        );
                        lemma_pp_arr_prefix(a1, a2, d, ra, rb);
                        assert(a == b);
                    }
                },
                _ => {
                    assert(false);
                },
            }
        },
        JVal::Obj(o1) => {
            match b {
                JVal::Obj(o2) => {
                    if o1.len() == 0 && o2.len() == 0 {
                        lemma_cancel(pp(a, d), ra, rb);
                        assert(o1 =~= o2);
                    } else if o1.len() == 0 {
                        lemma_pp_obj_head(o2, d);
                        assert(l[1] == '}');
                        assert(pp(b, d)[1] == pp_obj(o2, d)[0]);
                        assert((pp(b, d) + rb)[1] == pp(b, d)[1]);
                        assert(false);
                    } else if o2.len() == 0 {
                        lemma_pp_obj_head(o1, d);
                        assert((pp(b, d) + rb)[1] == '}');
                        assert(pp(a, d)[1] == pp_obj(o1, d)[0]);
                        assert(l[1] == pp(a, d)[1]);
                        assert(false);
                    } else {
                        assert(pp(a, d) + ra =~= seq!['{'] + (pp_obj(o1, d) + (seq!['\n']
                            + spaces(d) + seq!['}'] + ra)));
                        assert(pp(b, d) + rb =~= seq!['{'] + (pp_obj(o2, d) + (seq!['\n']
                            + spaces(d) + seq!['}'] + rb)));
                        lemma_cancel(
                            seq!['{'],
                            pp_obj(o1, d) + (seq!['\n'] + spaces(d) + seq!['}'] + ra),
                            pp_obj(o2, d) + (seq!['\n'] + spaces(d) + seq!['}'] + rb),
                        );
                        lemma_pp_obj_prefix(o1, o2, d, ra, rb);
                        assert(a == b);
                    }
                },
                _ => {
                    assert(false);
                },
            }
        },
    }
}

/// The element lines of a non-empty array start with a newline.
proof fn lemma_pp_arr_head(a: Seq<JVal>, d: nat)
    requires
        a.len() > 0,
    ensures
        pp_arr(a, d).len() > 0,
        pp_arr(a, d)[0] == '\n',
{
    broadcast use vstd::seq::group_seq_axioms;
}

/// The entry lines of a non-empty object start with a newline.
proof fn lemma_pp_obj_head(o: Seq<(Seq<char>, JVal)>, d: nat)
    requires
        o.len() > 0,
    ensures
        pp_obj(o, d).len() > 0,
        pp_obj(o, d)[0] == '\n',
{
    broadcast use vstd::seq::group_seq_axioms;

    let e = pp_entry(o[0], d);
    assert(e =~= (seq!['\n'] + spaces(d + 1)) + (seq!['"'] + esc(o[0].0) + seq!['"', ':', ' ']
        + pp(o[0].1, d + 1)));
    assert(e[0] == '\n');
    if o.len() > 1 {
        assert(pp_obj(o, d)[0] == e[0]);
    }
}

/// The element lines of a non-empty array, with their closing bracket and
/// what follows it, are all determined by the text.
proof fn lemma_pp_arr_prefix(
    a1: Seq<JVal>,
    a2: Seq<JVal>,
    d: nat,
    ra: Seq<char>,
    rb: Seq<char>,
)
    requires
        a1.len() > 0,
        a2.len() > 0,
        wf(JVal::Arr(a1)),
        wf(JVal::Arr(a2)),
        delim(ra),
        delim(rb),
        pp_arr(a1, d) + (seq!['\n'] + spaces(d) + seq![']'] + ra) == pp_arr(a2, d) + (seq![
            '\n',
        ] + spaces(d) + seq![']'] + rb),
    ensures
        a1 == a2,
        ra == rb,
    decreases a1,
{
    broadcast use vstd::seq::group_seq_axioms;

    lemma_wf_arr(a1);
    lemma_wf_arr(a2);
    let t1 = a1.subrange(1, a1.len() as int);
    let t2 = a2.subrange(1, a2.len() as int);
    let cla = seq!['\n'] + spaces(d) + seq![']'] + ra;
    let clb = seq!['\n'] + spaces(d) + seq![']'] + rb;
    let af1: Seq<char> = if a1.len() == 1 { cla } else { seq![','] + (pp_arr(t1, d) + cla) };
    let af2: Seq<char> = if a2.len() == 1 { clb } else { seq![','] + (pp_arr(t2, d) + clb) };
    assert(pp_arr(a1, d) + cla =~= (seq!['\n'] + spaces(d + 1)) + (pp(a1[0], d + 1) + af1));
    assert(pp_arr(a2, d) + clb =~= (seq!['\n'] + spaces(d + 1)) + (pp(a2[0], d + 1) + af2));
    lemma_cancel(seq!['\n'] + spaces(d + 1), pp(a1[0], d + 1) + af1, pp(a2[0], d + 1) + af2);
    assert(delim(af1)) by {
        if a1.len() == 1 {
            assert(cla[0] == '\n');
        } else {
            assert(af1[0] == ',');
        }
    }
    assert(delim(af2)) by {
        if a2.len() == 1 {
            assert(clb[0] == '\n');
        } else {
            assert(af2[0] == ',');
        }
    }
    lemma_pp_prefix(a1[0], a2[0], (d + 1) as nat, af1, af2);
    if a1.len() == 1 && a2.len() == 1 {
        assert(cla =~= (seq!['\n'] + spaces(d) + seq![']']) + ra);
        assert(clb =~= (seq!['\n'] + spaces(d) + seq![']']) + rb);
        lemma_cancel(seq!['\n'] + spaces(d) + seq![']'], ra, rb);
        assert(a1 =~= a2);
    } else if a1.len() == 1 {
        assert(af1[0] == '\n');
        assert(af2[0] == ',');
        assert(false);
    } else if a2.len() == 1 {
        assert(af1[0] == ',');
        assert(af2[0] == '\n');
        assert(false);
    } else {
        lemma_cancel(seq![','], pp_arr(t1, d) + cla, pp_arr(t2, d) + clb);
        assert(wf(JVal::Arr(t1))) by {
            lemma_wf_arr(t1);
            assert(forall|i: int| 0 <= i < t1.len() ==> #[trigger] t1[i] == a1[i + 1]);
        }
        assert(wf(JVal::Arr(t2))) by {
            lemma_wf_arr(t2);
            assert(forall|i: int| 0 <= i < t2.len() ==> #[trigger] t2[i] == a2[i + 1]);
        }
        lemma_pp_arr_prefix(t1, t2, d, ra, rb);
        assert forall|i: int| 0 <= i < a1.len() implies a1[i] == a2[i] by {
            if i > 0 {
                assert(t1[i - 1] == a1[i]);
                assert(t2[i - 1] == a2[i]);
            }
        }
        assert(a1 =~= a2);
    }
}

/// The entry lines of a non-empty object, with their closing brace and what
/// follows it, are all determined by the text.
#[verifier::rlimit(100)]
proof fn lemma_pp_obj_prefix(
    o1: Seq<(Seq<char>, JVal)>,
    o2: Seq<(Seq<char>, JVal)>,
    d: nat,
    ra: Seq<char>,
    rb: Seq<char>,
)
    requires
        o1.len() > 0,
        o2.len() > 0,
        wf(JVal::Obj(o1)),
        wf(JVal::Obj(o2)),
        delim(ra),
        delim(rb),
        pp_obj(o1, d) + (seq!['\n'] + spaces(d) + seq!['}'] + ra) == pp_obj(o2, d) + (seq![
            '\n',
        ] + spaces(d) + seq!['}'] + rb),
    ensures
        o1 == o2,
        ra == rb,
    decreases o1,
{
    broadcast use vstd::seq::group_seq_axioms;

    reveal_with_fuel(crate::pretty::pp_obj, 2);
    lemma_wf_obj(o1);
    lemma_wf_obj(o2);
    let t1 = o1.subrange(1, o1.len() as int);
    let t2 = o2.subrange(1, o2.len() as int);
    let cla = seq!['\n'] + spaces(d) + seq!['}'] + ra;
    let clb = seq!['\n'] + spaces(d) + seq!['}'] + rb;
    let af1: Seq<char> = if o1.len() == 1 { cla } else { seq![','] + (pp_obj(t1, d) + cla) };
    let af2: Seq<char> = if o2.len() == 1 { clb } else { seq![','] + (pp_obj(t2, d) + clb) };
    let k1 = o1[0].0;
    let k2 = o2[0].0;
    let v1 = o1[0].1;
    let v2 = o2[0].1;
    let rest1 = seq![':', ' '] + (pp(v1, d + 1) + af1);
    let rest2 = seq![':', ' '] + (pp(v2, d + 1) + af2);
    let pre = seq!['\n'] + spaces(d + 1) + seq!['"'];
    assert(seq!['"', ':', ' '] =~= seq!['"'] + seq![':', ' ']);
    assert(pp_entry(o1[0], d) =~= pre + (esc(k1) + seq!['"'] + (seq![':', ' '] + pp(v1, d + 1))));
    assert(pp_entry(o2[0], d) =~= pre + (esc(k2) + seq!['"'] + (seq![':', ' '] + pp(v2, d + 1))));
    assert(pp_obj(o1, d) + cla =~= pp_entry(o1[0], d) + af1);
    assert(pp_obj(o2, d) + clb =~= pp_entry(o2[0], d) + af2);
    assert(pp_obj(o1, d) + cla =~= pre + (esc(k1) + seq!['"'] + rest1));
    assert(pp_obj(o2, d) + clb =~= pre + (esc(k2) + seq!['"'] + rest2));
    lemma_cancel(pre, esc(k1) + seq!['"'] + rest1, esc(k2) + seq!['"'] + rest2);
    lemma_esc_prefix(k1, k2, rest1, rest2);
    lemma_cancel(seq![':', ' '], pp(v1, d + 1) + af1, pp(v2, d + 1) + af2);
    assert(delim(af1)) by {
        if o1.len() == 1 {
            assert(cla[0] == '\n');
        } else {
            assert(af1[0] == ',');
        }
    }
    assert(delim(af2)) by {
        if o2.len() == 1 {
            assert(clb[0] == '\n');
        } else {
            assert(af2[0] == ',');
        }
    }
    lemma_pp_prefix(v1, v2, (d + 1) as nat, af1, af2);
    assert(o1[0] == o2[0]);
    if o1.len() == 1 && o2.len() == 1 {
        assert(cla =~= (seq!['\n'] + spaces(d) + seq!['}']) + ra);
        assert(clb =~= (seq!['\n'] + spaces(d) + seq!['}']) + rb);
        lemma_cancel(seq!['\n'] + spaces(d) + seq!['}'], ra, rb);
        assert(o1 =~= o2);
    } else if o1.len() == 1 {
        assert(af1[0] == '\n');
        assert(af2[0] == ',');
        assert(false);
    } else if o2.len() == 1 {
        assert(af1[0] == ',');
        assert(af2[0] == '\n');
        assert(false);
    } else {
        lemma_cancel(seq![','], pp_obj(t1, d) + cla, pp_obj(t2, d) + clb);
        assert(wf(JVal::Obj(t1))) by {
            lemma_wf_obj(t1);
            assert(forall|i: int| 0 <= i < t1.len() ==> #[trigger] t1[i] == o1[i + 1]);
        }
        assert(wf(JVal::Obj(t2))) by {
            lemma_wf_obj(t2);
            assert(forall|i: int| 0 <= i < t2.len() ==> #[trigger] t2[i] == o2[i + 1]);
        }
        lemma_pp_obj_prefix(t1, t2, d, ra, rb);
        assert forall|i: int| 0 <= i < o1.len() implies o1[i] == o2[i] by {
            if i > 0 {
                assert(t1[i - 1] == o1[i]);
                assert(t2[i - 1] == o2[i]);
            }
        }
        assert(o1 =~= o2);
    }
}

/// On well-formed values the canonical text determines the value.
pub proof fn lemma_pp_injective(a: JVal, b: JVal, d: nat)
    requires
        wf(a),
        wf(b),
        pp(a, d) == pp(b, d),
    ensures
        a == b,
{
    broadcast use vstd::seq::group_seq_axioms;

    assert(pp(a, d) + Seq::<char>::empty() =~= pp(a, d));
    assert(pp(b, d) + Seq::<char>::empty() =~= pp(b, d));
    lemma_pp_prefix(a, b, d, Seq::empty(), Seq::empty());
}

} // verus!
