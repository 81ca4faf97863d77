//! The diff report: the two canonical texts are compared line by line by an
//! outside diff engine, and the resulting change clusters are rendered as
//! hunks of `<index>: <marker> <line>` rows, each hunk closed by `----`.

use vstd::prelude::*;

use crate::canon::{norm, normalize_value};
use crate::injective::lemma_pp_injective;
use crate::laws::lemma_normalize_wf;
use crate::pretty::{pp, pp_exec};
use crate::strutil::{chars_to_string, dec_chars, dec_str, spaces};
use crate::value::{jval, wf, Json};

verus! {

/// How one line of the diffed texts changed.
#[derive(Debug, Clone, Copy, PartialEq, Eq, Structural)]
pub enum ChangeKind {
    Kept,
    Added,
    Removed,
}

/// One line of a diff operation: its kind and its text (with trailing newline).
#[derive(Debug)]
pub struct ChangeRec {
    pub kind: ChangeKind,
    pub text: String,
}

/// One diff operation: where it starts on each side, and its lines.
#[derive(Debug)]
pub struct OpRec {
    pub old_index: usize,
    pub new_index: usize,
    pub changes: Vec<ChangeRec>,
}

/// A numeric code for a change kind.
pub open spec fn kind_code(k: ChangeKind) -> int {
    match k {
        ChangeKind::Kept => 0,
        ChangeKind::Added => 1,
        ChangeKind::Removed => 2,
    }
}

/// The model of one change.
pub open spec fn change_v(c: ChangeRec) -> (int, Seq<char>) {
    (kind_code(c.kind), c.text@)
}

/// The models of a sequence of changes.
pub open spec fn changes_v(s: Seq<ChangeRec>) -> Seq<(int, Seq<char>)>
    decreases s.len(),
{
    if s.len() == 0 {
        Seq::empty()
    } else {
        seq![change_v(s[0])] + changes_v(s.subrange(1, s.len() as int))
    }
}

pub proof fn lemma_changes_v(s: Seq<ChangeRec>)
    ensures
        changes_v(s).len() == s.len(),
        forall|i: int| 0 <= i < s.len() ==> changes_v(s)[i] == change_v(s[i]),
    decreases s.len(),
{
    if s.len() > 0 {
        lemma_changes_v(s.subrange(1, s.len() as int));
    }
}

/// The model of one operation.
pub open spec fn op_v(o: OpRec) -> (int, int, Seq<(int, Seq<char>)>) {
    (o.old_index as int, o.new_index as int, changes_v(o.changes@))
}

/// The models of one group of operations.
pub open spec fn group_v(g: Seq<OpRec>) -> Seq<(int, int, Seq<(int, Seq<char>)>)>
    decreases g.len(),
{
    if g.len() == 0 {
        Seq::empty()
    } else {
        seq![op_v(g[0])] + group_v(g.subrange(1, g.len() as int))
    }
}

pub proof fn lemma_group_v(g: Seq<OpRec>)
    ensures
        group_v(g).len() == g.len(),
        forall|i: int| 0 <= i < g.len() ==> group_v(g)[i] == op_v(g[i]),
    decreases g.len(),
{
    if g.len() > 0 {
        lemma_group_v(g.subrange(1, g.len() as int));
    }
}

/// The models of all groups.
pub open spec fn groups_v(gs: Seq<Vec<OpRec>>) -> Seq<Seq<(int, int, Seq<(int, Seq<char>)>)>>
    decreases gs.len(),
{
    if gs.len() == 0 {
        Seq::empty()
    } else {
        seq![group_v(gs[0]@)] + groups_v(gs.subrange(1, gs.len() as int))
    }
}

pub proof fn lemma_groups_v(gs: Seq<Vec<OpRec>>)
    ensures
        groups_v(gs).len() == gs.len(),
        forall|i: int| 0 <= i < gs.len() ==> groups_v(gs)[i] == group_v(gs[i]@),
    decreases gs.len(),
{
    if gs.len() > 0 {
        lemma_groups_v(gs.subrange(1, gs.len() as int));
    }
}

/// What the line-diff engine returns for the texts `old` and `new` with `ctx`
/// lines of context: the grouped change clusters, in document order. The
/// engine is deterministic, so this is a function of its arguments alone.
pub uninterp spec fn line_diff_groups(old: Seq<char>, new: Seq<char>, ctx: int) -> Seq<
    Seq<(int, int, Seq<(int, Seq<char>)>)>,
>;

/// A single line: nonempty, with no newline before its final character,
/// which is a newline or a bare carriage return — the engine counts a lone
/// carriage return as a line end and then supplies no extra newline.
pub open spec fn one_line(t: Seq<char>) -> bool {
    &&& t.len() > 0
    &&& (t[t.len() - 1] == '\n' || t[t.len() - 1] == '\r')
    &&& forall|p: int| 0 <= p < t.len() - 1 ==> t[p] != '\n'
}

/// The bounds that every operation of the engine's answer respects: range
/// starts lie within the line lists (and line lists are no longer than the
/// texts), and an operation with a `Kept` line is an equal run whose whole
/// extent lies within the old text.
pub open spec fn op_wf(op: OpRec, oldn: int, newn: int) -> bool {
    &&& op.old_index <= oldn
    &&& op.new_index <= newn
    &&& (exists|k: int|
        0 <= k < op.changes@.len() && (#[trigger] op.changes@[k]).kind == ChangeKind::Kept)
        ==> op.old_index + op.changes@.len() <= oldn
}

/// Relies on similar's `TextDiff::from_lines`, `grouped_ops` and
/// `iter_changes`: the texts are split into nonempty line tokens; the Myers
/// diff over them is deterministic in the two texts; `grouped_ops(ctx)`
/// returns no group exactly when the two texts are equal; each operation's
/// range starts lie within the token lists; `iter_changes` yields one change
/// per line, `Equal` operations yielding only `Equal`-tagged lines whose whole
/// old-side range lies within the old token list, and the other operations
/// yielding no `Equal`-tagged line. Each change's text is one line of its
/// text: it holds no newline before its end, and a trailing newline is
/// supplied where the line lacks one — except after a line ending in a bare
/// carriage return, which the engine already counts as a newline. The
/// grouping doubles the context while clustering, so contexts above half the
/// address space would overflow inside the engine and are excluded here.
#[verifier::external_body]
fn grouped_line_ops(old: &str, new: &str, ctx: usize) -> (r: Vec<Vec<OpRec>>)
    requires
        ctx <= usize::MAX / 2,
    ensures
        groups_v(r@) == line_diff_groups(old@, new@, ctx as int),
        r@.len() == 0 <==> old@ == new@,
        forall|i: int, j: int|
            0 <= i < r@.len() && 0 <= j < r@[i]@.len() ==> op_wf(
                #[trigger] r@[i]@[j],
                old@.len() as int,
                new@.len() as int,
            ),
        forall|i: int, j: int, k: int|
            0 <= i < r@.len() && 0 <= j < r@[i]@.len() && 0 <= k < r@[i]@[j].changes@.len()
                ==> one_line((#[trigger] r@[i]@[j].changes@[k]).text@),
{
    let d = similar::TextDiff::from_lines(old, new);
    d.grouped_ops(ctx).iter().map(|g| g.iter().map(|op| OpRec {
        old_index: op.old_range().start,
        new_index: op.new_range().start,
        changes: d.iter_changes(op).map(|c| ChangeRec {
            kind: match c.tag() {
                similar::ChangeTag::Equal => ChangeKind::Kept,
                similar::ChangeTag::Insert => ChangeKind::Added,
                similar::ChangeTag::Delete => ChangeKind::Removed,
            },
            text: c.to_string(),
        }).collect(),
    }).collect()).collect()
}

/// One rendered row: the line index, `: `, a two-character marker column
/// (`- `, `+ `, or two spaces), and the line text. Kept rows are numbered from
/// the operation's old start plus the kept rows already emitted; added rows
/// carry the operation's new start; removed rows its old start.
pub open spec fn line_str(oi: int, ni: int, kept: int, c: (int, Seq<char>)) -> Seq<char> {
    if c.0 == 0 {
        dec_str((oi + kept) as nat) + seq![':', ' ', ' ', ' '] + c.1
    } else if c.0 == 1 {
        dec_str(ni as nat) + seq![':', ' ', '+', ' '] + c.1
    } else {
        dec_str(oi as nat) + seq![':', ' ', '-', ' '] + c.1
    }
}

/// The rows of one operation, `kept` rows already emitted before it.
pub open spec fn render_changes(oi: int, ni: int, cs: Seq<(int, Seq<char>)>, kept: int) -> Seq<
    char,
>
    decreases cs.len(),
{
    if cs.len() == 0 {
        Seq::empty()
    } else {
        line_str(oi, ni, kept, cs[0]) + render_changes(
            oi,
            ni,
            cs.subrange(1, cs.len() as int),
            kept + if cs[0].0 == 0 {
                1int
            } else {
                0int
            },
        )
    }
}

/// The rows of one operation.
pub open spec fn render_op(op: (int, int, Seq<(int, Seq<char>)>)) -> Seq<char> {
    render_changes(op.0, op.1, op.2, 0)
}

/// The rows of one hunk.
pub open spec fn render_group(g: Seq<(int, int, Seq<(int, Seq<char>)>)>) -> Seq<char>
    decreases g.len(),
{
    if g.len() == 0 {
        Seq::empty()
    } else {
        render_op(g[0]) + render_group(g.subrange(1, g.len() as int))
    }
}

/// The whole report: each hunk's rows followed by the `----` separator line.
pub open spec fn render_groups(gs: Seq<Seq<(int, int, Seq<(int, Seq<char>)>)>>) -> Seq<char>
    decreases gs.len(),
{
    if gs.len() == 0 {
        Seq::empty()
    } else {
        render_group(gs[0]) + seq!['-', '-', '-', '-', '\n'] + render_groups(
            gs.subrange(1, gs.len() as int),
        )
    }
}

/// The report is empty exactly when there is no hunk.
pub proof fn lemma_render_groups_empty(gs: Seq<Seq<(int, int, Seq<(int, Seq<char>)>)>>)
    ensures
        render_groups(gs).len() == 0 <==> gs.len() == 0,
{
    if gs.len() > 0 {
        assert(render_groups(gs).len() >= 5);
    }
}

/// A non-empty report ends with the hunk terminator line.
pub proof fn lemma_render_groups_tail(gs: Seq<Seq<(int, int, Seq<(int, Seq<char>)>)>>)
    ensures
        gs.len() > 0 ==> render_groups(gs).len() >= 5 && render_groups(gs).subrange(
            render_groups(gs).len() - 5,
            render_groups(gs).len() as int,
        ) == seq!['-', '-', '-', '-', '\n'],
    decreases gs.len(),
{
    broadcast use vstd::seq::group_seq_axioms;

    if gs.len() == 1 {
        let t = render_groups(gs.subrange(1, gs.len() as int));
        assert(t =~= Seq::<char>::empty());
        let w = render_groups(gs);
        assert(w =~= render_group(gs[0]) + seq!['-', '-', '-', '-', '\n']);
        assert(w.subrange(w.len() - 5, w.len() as int) =~= seq!['-', '-', '-', '-', '\n']);
    } else if gs.len() > 1 {
        let rest = gs.subrange(1, gs.len() as int);
        lemma_render_groups_tail(rest);
        let t = render_groups(rest);
        let w = render_groups(gs);
        assert(w == render_group(gs[0]) + seq!['-', '-', '-', '-', '\n'] + t);
        assert(w.len() == render_group(gs[0]).len() + 5 + t.len());
        assert forall|i: int| 0 <= i < 5 implies #[trigger] w[w.len() - 5 + i] == t[t.len() - 5
            + i] by {
            assert(w[w.len() - 5 + i] == t[w.len() - 5 + i - (render_group(gs[0]).len() + 5)]);
        }
        assert(w.subrange(w.len() - 5, w.len() as int) =~= t.subrange(
            t.len() - 5,
            t.len() as int,
        ));
    }
}

/// Relies on str::chars: the iterator yields exactly the string's characters
/// in order.
#[verifier::external_body]
fn push_str_chars(s: &String, out: &mut Vec<char>)
    ensures
        final(out)@ == old(out)@ + s@,
{
    out.extend(s.chars());
}

#[verifier::loop_isolation(false)]
fn render_op_exec(op: &OpRec, Ghost(oldn): Ghost<int>, Ghost(newn): Ghost<int>, out: &mut Vec<char>)
    requires
        op_wf(*op, oldn, newn),
        0 <= oldn <= usize::MAX,
        0 <= newn <= usize::MAX,
    ensures
        final(out)@ == old(out)@ + render_op(op_v(*op)),
{
    let ghost cv = changes_v(op.changes@);
    proof {
        lemma_changes_v(op.changes@);
    }
    let mut i: usize = 0;
    let mut kept: usize = 0;
    let ghost base = out@;
    proof {
        assert(out@.subrange(base.len() as int, out@.len() as int) =~= Seq::<char>::empty());
        assert(cv.subrange(0, cv.len() as int) =~= cv);
        assert(out@.subrange(0, base.len() as int) =~= base);
    }
    while i < op.changes.len()
        invariant
            i <= op.changes@.len(),
            kept <= i,
            render_changes(op.old_index as int, op.new_index as int, cv, 0) == out@.subrange(
                base.len() as int,
                out@.len() as int,
            ) + render_changes(
                op.old_index as int,
                op.new_index as int,
                cv.subrange(i as int, cv.len() as int),
                kept as int,
            ),
            out@.len() >= base.len(),
            out@.subrange(0, base.len() as int) == base,
        decreases op.changes@.len() - i,
    {
        let ghost pre = out@;
        let ghost suf = cv.subrange(i as int, cv.len() as int);
        let c = &op.changes[i];
        let ghost kept0 = kept as int;
        match c.kind {
            ChangeKind::Kept => {
                proof {
                    assert(op.changes@[i as int].kind == ChangeKind::Kept);
                    assert(op.old_index + op.changes@.len() <= oldn);
                }
                let mut d = dec_chars(op.old_index + kept);
                out.append(&mut d);
                out.push(':');
                out.push(' ');
                out.push(' ');
                out.push(' ');
                push_str_chars(&c.text, out);
                kept = kept + 1;
            },
            ChangeKind::Added => {
                let mut d = dec_chars(op.new_index);
                out.append(&mut d);
                out.push(':');
                out.push(' ');
                out.push('+');
                out.push(' ');
                push_str_chars(&c.text, out);
            },
            ChangeKind::Removed => {
                let mut d = dec_chars(op.old_index);
                out.append(&mut d);
                out.push(':');
                out.push(' ');
                out.push('-');
                out.push(' ');
                push_str_chars(&c.text, out);
            },
        }
        proof {
            assert(suf[0] == change_v(op.changes@[i as int]));
            assert(out@ =~= pre + line_str(
                op.old_index as int,
                op.new_index as int,
                kept0,
                suf[0],
            ));
            assert(suf.subrange(1, suf.len() as int) =~= cv.subrange(
                i + 1 as int,
                cv.len() as int,
            ));
            assert(out@.subrange(base.len() as int, out@.len() as int) =~= pre.subrange(
                base.len() as int,
                pre.len() as int,
            ) + line_str(op.old_index as int, op.new_index as int, kept0, suf[0]));
            assert(out@.subrange(0, base.len() as int) =~= base);
        }
        i = i + 1;
    }
    proof {
        assert(cv.subrange(cv.len() as int, cv.len() as int) =~= Seq::<(int, Seq<char>)>::empty());
        assert(out@ =~= base + render_changes(op.old_index as int, op.new_index as int, cv, 0));
    }
}

#[verifier::loop_isolation(false)]
fn render_group_exec(
    g: &Vec<OpRec>,
    Ghost(oldn): Ghost<int>,
    Ghost(newn): Ghost<int>,
    out: &mut Vec<char>,
)
    requires
        forall|j: int| 0 <= j < g@.len() ==> op_wf(#[trigger] g@[j], oldn, newn),
        0 <= oldn <= usize::MAX,
        0 <= newn <= usize::MAX,
    ensures
        final(out)@ == old(out)@ + render_group(group_v(g@)),
{
    let ghost gv = group_v(g@);
    proof {
        lemma_group_v(g@);
    }
    let mut i: usize = 0;
    let ghost base = out@;
    proof {
        assert(out@.subrange(base.len() as int, out@.len() as int) =~= Seq::<char>::empty());
        assert(gv.subrange(0, gv.len() as int) =~= gv);
        assert(out@.subrange(0, base.len() as int) =~= base);
    }
    while i < g.len()
        invariant
            i <= g@.len(),
            render_group(gv) == out@.subrange(base.len() as int, out@.len() as int)
                + render_group(gv.subrange(i as int, gv.len() as int)),
            out@.len() >= base.len(),
            out@.subrange(0, base.len() as int) == base,
        decreases g@.len() - i,
    {
        let ghost pre = out@;
        let ghost suf = gv.subrange(i as int, gv.len() as int);
        render_op_exec(&g[i], Ghost(oldn), Ghost(newn), out);
        proof {
            assert(suf[0] == op_v(g@[i as int]));
            assert(suf.subrange(1, suf.len() as int) =~= gv.subrange(
                i + 1 as int,
                gv.len() as int,
            ));
            assert(out@.subrange(base.len() as int, out@.len() as int) =~= pre.subrange(
                base.len() as int,
                pre.len() as int,
            ) + render_op(suf[0]));
            assert(out@.subrange(0, base.len() as int) =~= base);
        }
        i = i + 1;
    }
    proof {
        assert(gv.subrange(gv.len() as int, gv.len() as int) =~= Seq::<
            (int, int, Seq<(int, Seq<char>)>),
        >::empty());
        assert(out@ =~= base + render_group(gv));
    }
}

#[verifier::loop_isolation(false)]
fn render_groups_exec(
    gs: &Vec<Vec<OpRec>>,
    Ghost(oldn): Ghost<int>,
    Ghost(newn): Ghost<int>,
    out: &mut Vec<char>,
)
    requires
        forall|i: int, j: int|
            0 <= i < gs@.len() && 0 <= j < gs@[i]@.len() ==> op_wf(
                #[trigger] gs@[i]@[j],
                oldn,
                newn,
            ),
        0 <= oldn <= usize::MAX,
        0 <= newn <= usize::MAX,
    ensures
        final(out)@ == old(out)@ + render_groups(groups_v(gs@)),
{
    let ghost gv = groups_v(gs@);
    proof {
        lemma_groups_v(gs@);
    }
    let mut i: usize = 0;
    let ghost base = out@;
    proof {
        assert(out@.subrange(base.len() as int, out@.len() as int) =~= Seq::<char>::empty());
        assert(gv.subrange(0, gv.len() as int) =~= gv);
        assert(out@.subrange(0, base.len() as int) =~= base);
    }
    while i < gs.len()
        invariant
            i <= gs@.len(),
            render_groups(gv) == out@.subrange(base.len() as int, out@.len() as int)
                + render_groups(gv.subrange(i as int, gv.len() as int)),
            out@.len() >= base.len(),
            out@.subrange(0, base.len() as int) == base,
        decreases gs@.len() - i,
    {
        let ghost pre = out@;
        let ghost suf = gv.subrange(i as int, gv.len() as int);
        render_group_exec(&gs[i], Ghost(oldn), Ghost(newn), out);
        out.push('-');
        out.push('-');
        out.push('-');
        out.push('-');
        out.push('\n');
        proof {
            assert(suf[0] == group_v(gs@[i as int]@));
            assert(suf.subrange(1, suf.len() as int) =~= gv.subrange(
                i + 1 as int,
                gv.len() as int,
            ));
            assert(out@.subrange(base.len() as int, out@.len() as int) =~= pre.subrange(
                base.len() as int,
                pre.len() as int,
            ) + render_group(suf[0]) + seq!['-', '-', '-', '-', '\n']);
            assert(out@.subrange(0, base.len() as int) =~= base);
        }
        i = i + 1;
    }
    proof {
        assert(gv.subrange(gv.len() as int, gv.len() as int) =~= Seq::<
            Seq<(int, int, Seq<(int, Seq<char>)>)>,
        >::empty());
        assert(out@ =~= base + render_groups(gv));
    }
}

/// The semantic difference of two JSON values, as an annotated line report
/// with `unified` lines of context around each change.
///
/// Both values are first brought into canonical form with array normalization
/// on; the report is empty exactly when the two canonical texts coincide — in
/// particular whenever the two canonical forms, or the two values, are equal,
/// and on well-formed values exactly when the two canonical forms are equal.
/// The context size is bounded by a machine limit: the engine doubles it while
/// clustering changes.
pub fn diff(v1: Json, v2: Json, unified: usize) -> (r: String)
    requires
        unified <= usize::MAX / 2,
    ensures
        r@ == render_groups(
            line_diff_groups(pp(norm(v1@, true), 0), pp(norm(v2@, true), 0), unified as int),
        ),
        r@.len() == 0 <==> pp(norm(v1@, true), 0) == pp(norm(v2@, true), 0),
        norm(v1@, true) == norm(v2@, true) ==> r@.len() == 0,
        v1@ == v2@ ==> r@.len() == 0,
        wf(v1@) && wf(v2@) ==> (r@.len() == 0 <==> norm(v1@, true) == norm(v2@, true)),
        r@.len() > 0 ==> r@.len() >= 5 && r@.subrange(r@.len() - 5, r@.len() as int) == seq![
            '-',
            '-',
            '-',
            '-',
            '\n',
        ],
{
    let ghost m1 = v1@;
    let ghost m2 = v2@;
    let n1 = normalize_value(v1, true);
    let n2 = normalize_value(v2, true);
    let ind: Vec<char> = Vec::new();
    proof {
        assert(ind@ =~= spaces(0));
    }
    let mut t1: Vec<char> = Vec::new();
    pp_exec(&n1, &ind, Ghost(0nat), &mut t1);
    let mut t2: Vec<char> = Vec::new();
    pp_exec(&n2, &ind, Ghost(0nat), &mut t2);
    proof {
        assert(t1@ =~= pp(norm(m1, true), 0));
        assert(t2@ =~= pp(norm(m2, true), 0));
    }
    let len1 = t1.len();
    let len2 = t2.len();
    let s1 = chars_to_string(&t1);
    let s2 = chars_to_string(&t2);
    let groups = grouped_line_ops(s1.as_str(), s2.as_str(), unified);
    let mut out: Vec<char> = Vec::new();
    render_groups_exec(&groups, Ghost(len1 as int), Ghost(len2 as int), &mut out);
    proof {
        lemma_groups_v(groups@);
        lemma_render_groups_empty(groups_v(groups@));
        lemma_render_groups_tail(groups_v(groups@));
        if wf(m1) && wf(m2) {
            lemma_normalize_wf(m1, true);
            lemma_normalize_wf(m2, true);
            if pp(norm(m1, true), 0) == pp(norm(m2, true), 0) {
                lemma_pp_injective(norm(m1, true), norm(m2, true), 0);
            }
        }
    }
    chars_to_string(&out)
}

/// The canonical pretty-printed text of a value, for callers that persist the
/// normalized form.
pub fn to_string_pretty(v: &Json) -> (r: String)
    ensures
        r@ == pp(jval(*v), 0),
{
    let ind: Vec<char> = Vec::new();
    proof {
        assert(ind@ =~= spaces(0));
    }
    let mut out: Vec<char> = Vec::new();
    pp_exec(v, &ind, Ghost(0nat), &mut out);
    proof {
        assert(out@ =~= pp(jval(*v), 0));
    }
    chars_to_string(&out)
}

} // verus!
