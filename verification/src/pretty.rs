//! The two stable text forms of a canonical value: the compact form (used
//! inside array sort keys) and the indented multi-line form that the diff is
//! taken over. Both follow the common JSON serialization conventions: compact
//! writes `{"k":v}` and `[v,v]` with no spaces; the indented form writes one
//! token per line with two spaces per nesting level and `"k": v` entries.

use vstd::prelude::*;

use crate::strutil::{esc, esc_exec, extend_indent, spaces};
use crate::value::{jval, jval_arr, jval_obj, lemma_jval_arr, lemma_jval_obj, JVal, Json};

verus! {

/// The compact one-line text of a value.
pub open spec fn cpt(v: JVal) -> Seq<char>
    decreases v,
{
    match v {
        JVal::Null => seq!['n', 'u', 'l', 'l'],
        JVal::Bool(b) => if b {
            seq!['t', 'r', 'u', 'e']
        } else {
            seq!['f', 'a', 'l', 's', 'e']
        },
        JVal::Num(s) => s,
        JVal::Str(s) => seq!['"'] + esc(s) + seq!['"'],
        JVal::Arr(a) => seq!['['] + cpt_arr(a) + seq![']'],
        JVal::Obj(o) => seq!['{'] + cpt_obj(o) + seq!['}'],
    }
}

/// The compact texts of array elements, joined by commas.
pub open spec fn cpt_arr(a: Seq<JVal>) -> Seq<char>
    decreases a,
{
    if a.len() == 0 {
        Seq::empty()
    } else if a.len() == 1 {
        cpt(a[0])
    } else {
        cpt(a[0]) + seq![','] + cpt_arr(a.subrange(1, a.len() as int))
    }
}

/// The compact text of one object entry.
pub open spec fn cpt_entry(e: (Seq<char>, JVal)) -> Seq<char>
    decreases e,
{
    seq!['"'] + esc(e.0) + seq!['"', ':'] + cpt(e.1)
}

/// The compact texts of object entries, joined by commas.
pub open spec fn cpt_obj(o: Seq<(Seq<char>, JVal)>) -> Seq<char>
    decreases o,
{
    if o.len() == 0 {
        Seq::empty()
    } else if o.len() == 1 {
        cpt_entry(o[0])
    } else {
        cpt_entry(o[0]) + seq![','] + cpt_obj(o.subrange(1, o.len() as int))
    }
}

/// The indented multi-line text of a value standing at nesting depth `d`.
pub open spec fn pp(v: JVal, d: nat) -> Seq<char>
    decreases v,
{
    match v {
        JVal::Null => seq!['n', 'u', 'l', 'l'],
        JVal::Bool(b) => if b {
            seq!['t', 'r', 'u', 'e']
        } else {
            seq!['f', 'a', 'l', 's', 'e']
        },
        JVal::Num(s) => s,
        JVal::Str(s) => seq!['"'] + esc(s) + seq!['"'],
        JVal::Arr(a) => if a.len() == 0 {
            seq!['[', ']']
        } else {
            seq!['['] + pp_arr(a, d) + seq!['\n'] + spaces(d) + seq![']']
        },
        JVal::Obj(o) => if o.len() == 0 {
            seq!['{', '}']
        } else {
            seq!['{'] + pp_obj(o, d) + seq!['\n'] + spaces(d) + seq!['}']
        },
    }
}

/// The element lines of a non-empty array at depth `d`: each element on its own
/// line at depth `d + 1`, lines separated by commas.
pub open spec fn pp_arr(a: Seq<JVal>, d: nat) -> Seq<char>
    decreases a,
{
    if a.len() == 0 {
        Seq::empty()
    } else {
        let head = seq!['\n'] + spaces(d + 1) + pp(a[0], d + 1);
        if a.len() == 1 {
            head
        } else {
            head + seq![','] + pp_arr(a.subrange(1, a.len() as int), d)
        }
    }
}

/// One object entry line at depth `d + 1`.
pub open spec fn pp_entry(e: (Seq<char>, JVal), d: nat) -> Seq<char>
    decreases e,
{
    seq!['\n'] + spaces(d + 1) + seq!['"'] + esc(e.0) + seq!['"', ':', ' '] + pp(e.1, d + 1)
}

/// The entry lines of a non-empty object at depth `d`.
pub open spec fn pp_obj(o: Seq<(Seq<char>, JVal)>, d: nat) -> Seq<char>
    decreases o,
{
    if o.len() == 0 {
        Seq::empty()
    } else if o.len() == 1 {
        pp_entry(o[0], d)
    } else {
        pp_entry(o[0], d) + seq![','] + pp_obj(o.subrange(1, o.len() as int), d)
    }
}

/// Appends the compact text of `v` to `out`.
pub(crate) fn cpt_exec(v: &Json, out: &mut Vec<char>)
    ensures
        final(out)@ == old(out)@ + cpt(jval(*v)),
    decreases v, 0int,
{
    match v {
        Json::Null => {
            out.push('n');
            out.push('u');
            out.push('l');
            out.push('l');
        },
        Json::Bool(b) => {
            if *b {
                out.push('t');
                out.push('r');
                out.push('u');
                out.push('e');
            } else {
                out.push('f');
                out.push('a');
                out.push('l');
                out.push('s');
                out.push('e');
            }
        },
        Json::Num(s) => {
            let mut i: usize = 0;
            let ghost base = out@;
            while i < s.len()
                invariant
                    i <= s@.len(),
                    out@ == base + s@.subrange(0, i as int),
                decreases s@.len() - i,
            {
                out.push(s[i]);
                proof {
                    assert(s@.subrange(0, i + 1 as int) =~= s@.subrange(0, i as int).push(
                        s@[i as int],
                    ));
                }
                i = i + 1;
            }
            proof {
                assert(s@.subrange(0, s@.len() as int) =~= s@);
            }
        },
        Json::Str(s) => {
            out.push('"');
            esc_exec(s, out);
            out.push('"');
        },
        Json::Arr(a) => {
            out.push('[');
            cpt_arr_exec(a, 0, out);
            out.push(']');
            proof {
                lemma_jval_arr(a@);
                assert(jval_arr(a@).subrange(0, a@.len() as int) =~= jval_arr(a@));
                assert(out@ =~= old(out)@ + cpt(jval(*v)));
            }
        },
        Json::Obj(o) => {
            out.push('{');
            cpt_obj_exec(o, 0, out);
            out.push('}');
            proof {
                lemma_jval_obj(o@);
                assert(jval_obj(o@).subrange(0, o@.len() as int) =~= jval_obj(o@));
                assert(out@ =~= old(out)@ + cpt(jval(*v)));
            }
        },
    }
    proof {
        assert(out@ =~= old(out)@ + cpt(jval(*v)));
    }
}

/// Appends the compact texts of the elements of `a` from `i` on, joined by commas.
fn cpt_arr_exec(a: &Vec<Json>, i: usize, out: &mut Vec<char>)
    requires
        i <= a@.len(),
    ensures
        final(out)@ == old(out)@ + cpt_arr(jval_arr(a@).subrange(i as int, a@.len() as int)),
    decreases a, a@.len() - i,
{
    proof {
        lemma_jval_arr(a@);
    }
    let ghost s = jval_arr(a@).subrange(i as int, a@.len() as int);
    if i == a.len() {
        proof {
            assert(out@ =~= old(out)@ + cpt_arr(s));
        }
    } else {
        cpt_exec(&a[i], out);
        if i + 1 < a.len() {
            out.push(',');
            cpt_arr_exec(a, i + 1, out);
            proof {
                assert(s.subrange(1, s.len() as int) =~= jval_arr(a@).subrange(
                    i + 1 as int,
                    a@.len() as int,
                ));
                assert(out@ =~= old(out)@ + cpt_arr(s));
            }
        } else {
            proof {
                assert(out@ =~= old(out)@ + cpt_arr(s));
            }
        }
    }
}

/// Appends the compact texts of the entries of `o` from `i` on, joined by commas.
fn cpt_obj_exec(o: &Vec<(Vec<char>, Json)>, i: usize, out: &mut Vec<char>)
    requires
        i <= o@.len(),
    ensures
        final(out)@ == old(out)@ + cpt_obj(jval_obj(o@).subrange(i as int, o@.len() as int)),
    decreases o, o@.len() - i,
{
    proof {
        lemma_jval_obj(o@);
    }
    let ghost s = jval_obj(o@).subrange(i as int, o@.len() as int);
    if i == o.len() {
        proof {
            assert(out@ =~= old(out)@ + cpt_obj(s));
        }
    } else {
        out.push('"');
        esc_exec(&o[i].0, out);
        out.push('"');
        out.push(':');
        cpt_exec(&o[i].1, out);
        proof {
            assert(out@ =~= old(out)@ + cpt_entry(s[0]));
        }
        if i + 1 < o.len() {
            out.push(',');
            cpt_obj_exec(o, i + 1, out);
            proof {
                assert(s.subrange(1, s.len() as int) =~= jval_obj(o@).subrange(
                    i + 1 as int,
                    o@.len() as int,
                ));
                assert(out@ =~= old(out)@ + cpt_obj(s));
            }
        } else {
            proof {
                assert(out@ =~= old(out)@ + cpt_obj(s));
            }
        }
    }
}

/// Appends the indented text of `v` at depth `d` to `out`; `ind` holds the
/// indentation for depth `d`.
pub(crate) fn pp_exec(v: &Json, ind: &Vec<char>, Ghost(d): Ghost<nat>, out: &mut Vec<char>)
    requires
        ind@ == spaces(d),
    ensures
        final(out)@ == old(out)@ + pp(jval(*v), d),
    decreases v, 0int,
{
    match v {
        Json::Null => {
            out.push('n');
            out.push('u');
            out.push('l');
            out.push('l');
        },
        Json::Bool(b) => {
            if *b {
                out.push('t');
                out.push('r');
                out.push('u');
                out.push('e');
            } else {
                out.push('f');
                out.push('a');
                out.push('l');
                out.push('s');
                out.push('e');
            }
        },
        Json::Num(s) => {
            let mut i: usize = 0;
            let ghost base = out@;
            while i < s.len()
                invariant
                    i <= s@.len(),
                    out@ == base + s@.subrange(0, i as int),
                decreases s@.len() - i,
            {
                out.push(s[i]);
                proof {
                    assert(s@.subrange(0, i + 1 as int) =~= s@.subrange(0, i as int).push(
                        s@[i as int],
                    ));
                }
                i = i + 1;
            }
            proof {
                assert(s@.subrange(0, s@.len() as int) =~= s@);
            }
        },
        Json::Str(s) => {
            out.push('"');
            esc_exec(s, out);
            out.push('"');
        },
        Json::Arr(a) => {
            if a.len() == 0 {
                out.push('[');
                out.push(']');
                proof {
                    assert(jval_arr(a@).len() == 0) by {
                        lemma_jval_arr(a@);
                    }
                }
            } else {
                let ind2 = extend_indent(ind);
                out.push('[');
                pp_arr_exec(a, 0, &ind2, Ghost(d), out);
                out.push('\n');
                append_copy(ind, out);
                out.push(']');
                proof {
                    lemma_jval_arr(a@);
                    assert(jval_arr(a@).subrange(0, jval_arr(a@).len() as int) =~= jval_arr(
                        a@,
                    ));
                }
            }
        },
        Json::Obj(o) => {
            if o.len() == 0 {
                out.push('{');
                out.push('}');
                proof {
                    assert(jval_obj(o@).len() == 0) by {
                        lemma_jval_obj(o@);
                    }
                }
            } else {
                let ind2 = extend_indent(ind);
                out.push('{');
                pp_obj_exec(o, 0, &ind2, Ghost(d), out);
                out.push('\n');
                append_copy(ind, out);
                out.push('}');
                proof {
                    lemma_jval_obj(o@);
                    assert(jval_obj(o@).subrange(0, jval_obj(o@).len() as int) =~= jval_obj(
                        o@,
                    ));
                }
            }
        },
    }
    proof {
        assert(out@ =~= old(out)@ + pp(jval(*v), d));
    }
}

/// Appends the element lines of `a` from `i` on; `ind2` holds the indentation
/// for depth `d + 1`.
fn pp_arr_exec(a: &Vec<Json>, i: usize, ind2: &Vec<char>, Ghost(d): Ghost<nat>, out: &mut Vec<char>)
    requires
        i < a@.len(),
        ind2@ == spaces(d + 1),
    ensures
        final(out)@ == old(out)@ + pp_arr(jval_arr(a@).subrange(i as int, a@.len() as int), d),
    decreases a, a@.len() - i,
{
    proof {
        lemma_jval_arr(a@);
    }
    let n = a.len();
    let ghost s = jval_arr(a@).subrange(i as int, a@.len() as int);
    out.push('\n');
    append_copy(ind2, out);
    pp_exec(&a[i], ind2, Ghost((d + 1) as nat), out);
    if i + 1 < n {
        out.push(',');
        pp_arr_exec(a, i + 1, ind2, Ghost(d), out);
        proof {
            assert(s.subrange(1, s.len() as int) =~= jval_arr(a@).subrange(
                i + 1 as int,
                a@.len() as int,
            ));
            assert(out@ =~= old(out)@ + pp_arr(s, d));
        }
    } else {
        proof {
            assert(out@ =~= old(out)@ + pp_arr(s, d));
        }
    }
}

/// Appends the entry lines of `o` from `i` on; `ind2` holds the indentation
/// for depth `d + 1`.
fn pp_obj_exec(
    o: &Vec<(Vec<char>, Json)>,
    i: usize,
    ind2: &Vec<char>,
    Ghost(d): Ghost<nat>,
    out: &mut Vec<char>,
)
    requires
        i < o@.len(),
        ind2@ == spaces(d + 1),
    ensures
        final(out)@ == old(out)@ + pp_obj(jval_obj(o@).subrange(i as int, o@.len() as int), d),
    decreases o, o@.len() - i,
{
    proof {
        lemma_jval_obj(o@);
    }
    let n = o.len();
    let ghost s = jval_obj(o@).subrange(i as int, o@.len() as int);
    out.push('\n');
    append_copy(ind2, out);
    out.push('"');
    esc_exec(&o[i].0, out);
    out.push('"');
    out.push(':');
    out.push(' ');
    pp_exec(&o[i].1, ind2, Ghost((d + 1) as nat), out);
    proof {
        assert(out@ =~= old(out)@ + pp_entry(s[0], d));
    }
    if i + 1 < n {
        out.push(',');
        pp_obj_exec(o, i + 1, ind2, Ghost(d), out);
        proof {
            assert(s.subrange(1, s.len() as int) =~= jval_obj(o@).subrange(
                i + 1 as int,
                o@.len() as int,
            ));
            assert(out@ =~= old(out)@ + pp_obj(s, d));
        }
    } else {
        proof {
            assert(out@ =~= old(out)@ + pp_obj(s, d));
        }
    }
}

/// Appends a copy of `src` to `out`.
fn append_copy(src: &Vec<char>, out: &mut Vec<char>)
    ensures
        final(out)@ == old(out)@ + src@,
{
    let ghost base = out@;
    let mut i: usize = 0;
    while i < src.len()
        invariant
            i <= src@.len(),
            out@ == base + src@.subrange(0, i as int),
        decreases src@.len() - i,
    {
        out.push(src[i]);
        proof {
            assert(src@.subrange(0, i + 1 as int) =~= src@.subrange(0, i as int).push(
                src@[i as int],
            ));
        }
        i = i + 1;
    }
    proof {
        assert(src@.subrange(0, src@.len() as int) =~= src@);
    }
}

} // verus!
