//! A round-trip law of the parser: rendering a tree of plain tokens in the
//! canonical single-form layout and parsing that text reproduces the tree.

use vstd::prelude::*;

use crate::ast::NodeV;
use crate::ast::ParseError;
use crate::ast::TaggedV;
use crate::parse::ParseState;
use crate::parse::init_state;
use crate::parse::leaves;
use crate::parse::parse_from;
use crate::parse::parse_tagged_spec;
use crate::parse::ws_step;
use crate::text::is_ws_char;
use crate::text::open_ahead;
use crate::text::trim_spec;

verus! {

/// A plain token: non-empty text holding no whitespace and no parentheses.
pub open spec fn plain_token(w: Seq<char>) -> bool {
    w.len() > 0 && forall|k: int|
        0 <= k < w.len() ==> !is_ws_char(w[k]) && w[k] != '(' && w[k] != ')'
}

/// Trimming a plain token changes nothing.
proof fn lemma_trim_plain(w: Seq<char>)
    requires
        plain_token(w),
    ensures
        trim_spec(w) == w,
{
    assert(!is_ws_char(w[0]));
    assert(!is_ws_char(w.last()));
}

/// Running the parser across plain characters only accumulates them onto the
/// pending buffer.
proof fn lemma_parse_run(s: Seq<char>, i: int, j: int, st: ParseState)
    requires
        0 <= i <= j <= s.len(),
        forall|k: int| i <= k < j ==> !is_ws_char(s[k]) && s[k] != '(' && s[k] != ')',
    ensures
        parse_from(s, i, st) == parse_from(
            s,
            j,
            ParseState { buf: st.buf + s.subrange(i, j), ..st },
        ),
    decreases j - i,
{
    if i == j {
        assert(st.buf + s.subrange(i, j) =~= st.buf);
    } else {
        let st1 = ParseState { buf: st.buf.push(s[i]), ..st };
        assert(parse_from(s, i, st) == parse_from(s, i + 1, st1));
        lemma_parse_run(s, i + 1, j, st1);
        assert(st.buf.push(s[i]) + s.subrange(i + 1, j) =~= st.buf + s.subrange(i, j));
    }
}

/// The canonical rendering of a tree with one prefix argument and two
/// instruction lines: `(label arg instr1\ninstr2\n)`.
pub open spec fn canonical_form(lbl: Seq<char>, arg: Seq<char>, i1: Seq<char>, i2: Seq<char>) -> Seq<
    char,
> {
    seq!['('] + lbl + seq![' '] + arg + seq![' '] + i1 + seq!['\n'] + i2 + seq!['\n', ')']
}

/// Where each character of the canonical rendering sits.
proof fn lemma_canonical_chars(lbl: Seq<char>, arg: Seq<char>, i1: Seq<char>, i2: Seq<char>)
    ensures
        ({
            let s = canonical_form(lbl, arg, i1, i2);
            let p2 = 1 + lbl.len() as int;
            let p3 = p2 + 1;
            let p4 = p3 + arg.len() as int;
            let p5 = p4 + 1;
            let p6 = p5 + i1.len() as int;
            let p7 = p6 + 1;
            let p8 = p7 + i2.len() as int;
            &&& s.len() == p8 + 2
            &&& 0 < s.len() ==> s[0] == '('
            &&& forall|k: int| 1 <= k < p2 ==> s[k] == lbl[k - 1]
            &&& s[p2] == ' '
            &&& forall|k: int| p3 <= k < p4 ==> s[k] == arg[k - p3]
            &&& s[p4] == ' '
            &&& forall|k: int| p5 <= k < p6 ==> s[k] == i1[k - p5]
            &&& s[p6] == '\n'
            &&& forall|k: int| p7 <= k < p8 ==> s[k] == i2[k - p7]
            &&& s[p8] == '\n'
            &&& s[p8 + 1] == ')'
        }),
{
    let s = canonical_form(lbl, arg, i1, i2);
    let t1 = seq!['('] + lbl;
    let t2 = t1 + seq![' '];
    let t3 = t2 + arg;
    let t4 = t3 + seq![' '];
    let t5 = t4 + i1;
    let t6 = t5 + seq!['\n'];
    let t7 = t6 + i2;
    assert(s == t7 + seq!['\n', ')']);
    assert(forall|k: int| 0 <= k < t7.len() ==> s[k] == t7[k]);
    assert(forall|k: int| 0 <= k < t6.len() ==> t7[k] == t6[k]);
    assert(forall|k: int| 0 <= k < t5.len() ==> t6[k] == t5[k]);
    assert(forall|k: int| 0 <= k < t4.len() ==> t5[k] == t4[k]);
    assert(forall|k: int| 0 <= k < t3.len() ==> t4[k] == t3[k]);
    assert(forall|k: int| 0 <= k < t2.len() ==> t3[k] == t2[k]);
    assert(forall|k: int| 0 <= k < t1.len() ==> t2[k] == t1[k]);
    assert(t1[0] == '(');
    assert(forall|k: int| 1 <= k < t1.len() ==> t1[k] == lbl[k - 1]);
    assert(t2[t1.len() as int] == ' ');
    assert(forall|k: int| t2.len() <= k < t3.len() ==> t3[k] == arg[k - t2.len()]);
    assert(t4[t3.len() as int] == ' ');
    assert(forall|k: int| t4.len() <= k < t5.len() ==> t5[k] == i1[k - t4.len()]);
    assert(t6[t5.len() as int] == '\n');
    assert(forall|k: int| t6.len() <= k < t7.len() ==> t7[k] == i2[k - t6.len()]);
    assert(s[t7.len() as int] == '\n');
    assert(s[t7.len() + 1int] == ')');
}

/// The state-machine walk over a text laid out as `(label arg instr1\ninstr2\n)`
/// with plain tokens: the run assigns the label, makes the argument the one
/// prefix entry, and flushes the two instruction lines.
#[verifier::rlimit(100)]
proof fn lemma_parse_walk(s: Seq<char>, lbl: Seq<char>, arg: Seq<char>, i1: Seq<char>, i2: Seq<
    char,
>)
    requires
        plain_token(lbl),
        plain_token(arg),
        plain_token(i1),
        plain_token(i2),
        s.len() == 6 + lbl.len() + arg.len() + i1.len() + i2.len(),
        s[0] == '(',
        forall|k: int| 1 <= k < 1 + lbl.len() ==> s[k] == lbl[k - 1],
        s[1 + lbl.len() as int] == ' ',
        forall|k: int|
            2 + lbl.len() <= k < 2 + lbl.len() + arg.len() ==> s[k] == arg[k - 2 - lbl.len()],
        s[2 + lbl.len() + arg.len() as int] == ' ',
        forall|k: int|
            3 + lbl.len() + arg.len() <= k < 3 + lbl.len() + arg.len() + i1.len() ==> s[k] == i1[k
                - 3 - lbl.len() - arg.len()],
        s[3 + lbl.len() + arg.len() + i1.len() as int] == '\n',
        forall|k: int|
            4 + lbl.len() + arg.len() + i1.len() <= k < 4 + lbl.len() + arg.len() + i1.len()
                + i2.len() ==> s[k] == i2[k - 4 - lbl.len() - arg.len() - i1.len()],
        s[4 + lbl.len() + arg.len() + i1.len() + i2.len() as int] == '\n',
        s[s.len() - 1] == ')',
    ensures
        parse_tagged_spec(s) == Ok::<TaggedV, ParseError>(
            TaggedV {
                label: lbl,
                prefix: seq![NodeV::Leaf(arg)],
                instructions: seq![NodeV::Leaf(i1), NodeV::Leaf(i2)],
            },
        ),
{
    let p2 = 1 + lbl.len() as int;
    let p3 = p2 + 1;
    let p4 = p3 + arg.len() as int;
    let p5 = p4 + 1;
    let p6 = p5 + i1.len() as int;
    let p7 = p6 + 1;
    let p8 = p7 + i2.len() as int;
    let p9 = p8 + 1;

    lemma_trim_plain(arg);
    lemma_trim_plain(i1);
    lemma_trim_plain(i2);

    // The label token accumulates, then the space assigns it.
    let st0 = init_state();
    lemma_parse_run(s, 1, p2, st0);
    assert(st0.buf + s.subrange(1, p2) =~= lbl);
    let st_a = ParseState { buf: lbl, ..st0 };
    assert(parse_from(s, 1, st0) == parse_from(s, p2, st_a));
    assert(parse_from(s, p2, st_a) == parse_from(s, p3, ws_step(s, p3, st_a, ' ')));
    let st_b = ParseState { label: lbl, buf: Seq::empty(), ..st_a };
    assert(ws_step(s, p3, st_a, ' ') == st_b);

    // The argument accumulates, then the space makes it the first prefix entry.
    lemma_parse_run(s, p3, p4, st_b);
    assert(st_b.buf + s.subrange(p3, p4) =~= arg);
    let st_c = ParseState { buf: arg, ..st_b };
    assert(parse_from(s, p3, st_b) == parse_from(s, p4, st_c));
    assert(parse_from(s, p4, st_c) == parse_from(s, p5, ws_step(s, p5, st_c, ' ')));
    let st_d = ParseState { prefix: seq![arg], buf: Seq::empty(), ..st_c };
    assert(st_c.prefix.push(trim_spec(st_c.buf)) =~= seq![arg]);
    assert(ws_step(s, p5, st_c, ' ') == st_d);

    // The first instruction accumulates; no parenthesis lies ahead of the
    // newline, so instruction mode begins and the line is flushed.
    lemma_parse_run(s, p5, p6, st_d);
    assert(st_d.buf + s.subrange(p5, p6) =~= i1);
    let st_e = ParseState { buf: i1, ..st_d };
    assert(parse_from(s, p5, st_d) == parse_from(s, p6, st_e));
    assert(forall|k: int| p7 <= k < s.len() ==> s[k] != '(');
    assert(!open_ahead(s, p7));
    assert(parse_from(s, p6, st_e) == parse_from(s, p7, ws_step(s, p7, st_e, '\n')));
    let st_f = ParseState { instructions: seq![i1], buf: Seq::empty(), instr_mode: true, ..st_e };
    assert(st_e.instructions.push(trim_spec(st_e.buf)) =~= seq![i1]);
    assert(ws_step(s, p7, st_e, '\n') == st_f);

    // The second instruction accumulates and its newline flushes it.
    lemma_parse_run(s, p7, p8, st_f);
    assert(st_f.buf + s.subrange(p7, p8) =~= i2);
    let st_g = ParseState { buf: i2, ..st_f };
    assert(parse_from(s, p7, st_f) == parse_from(s, p8, st_g));
    assert(parse_from(s, p8, st_g) == parse_from(s, p9, ws_step(s, p9, st_g, '\n')));
    let st_h = ParseState { instructions: seq![i1, i2], buf: Seq::empty(), ..st_g };
    assert(st_g.instructions.push(trim_spec(st_g.buf)) =~= seq![i1, i2]);
    assert(ws_step(s, p9, st_g, '\n') == st_h);

    // The closing parenthesis ends the run with nothing pending.
    assert(parse_from(s, p9, st_h) == Ok::<ParseState, ParseError>(st_h));
    assert(parse_from(s, 1, st0) == Ok::<ParseState, ParseError>(st_h));

    assert(leaves(st_h.prefix) =~= seq![NodeV::Leaf(arg)]);
    assert(leaves(st_h.instructions) =~= seq![NodeV::Leaf(i1), NodeV::Leaf(i2)]);
}

/// Parsing the canonical rendering of a tree of plain tokens yields exactly
/// that tree back, so parsing after rendering is the identity on such trees.
pub proof fn lemma_parse_canonical(lbl: Seq<char>, arg: Seq<char>, i1: Seq<char>, i2: Seq<char>)
    requires
        plain_token(lbl),
        plain_token(arg),
        plain_token(i1),
        plain_token(i2),
    ensures
        parse_tagged_spec(canonical_form(lbl, arg, i1, i2)) == Ok::<TaggedV, ParseError>(
            TaggedV {
                label: lbl,
                prefix: seq![NodeV::Leaf(arg)],
                instructions: seq![NodeV::Leaf(i1), NodeV::Leaf(i2)],
            },
        ),
{
    lemma_canonical_chars(lbl, arg, i1, i2);
    let s = canonical_form(lbl, arg, i1, i2);
    assert(s.len() == 6 + lbl.len() + arg.len() + i1.len() + i2.len());
    assert(s[s.len() - 1] == ')');
    lemma_parse_walk(s, lbl, arg, i1, i2);
}

/// Scanning across characters that are not parentheses changes nothing.
proof fn lemma_scan_plain(s: Seq<char>, i: int, j: int)
    requires
        0 <= i <= j <= s.len(),
        forall|k: int| i <= k < j ==> s[k] != '(' && s[k] != ')',
    ensures
        crate::scan::scan_end(s, i, 1) == crate::scan::scan_end(s, j, 1),
    decreases j - i,
{
    if i < j {
        lemma_scan_plain(s, i + 1, j);
    }
}

/// The canonical rendering of a tree with two plain prefix arguments, one
/// parenthesized prefix group and two instruction lines:
/// `(label arg1 arg2 (grp) instr1\ninstr2\n)`.
pub open spec fn canonical_form_grouped(
    lbl: Seq<char>,
    a1: Seq<char>,
    a2: Seq<char>,
    grp: Seq<char>,
    i1: Seq<char>,
    i2: Seq<char>,
) -> Seq<char> {
    seq!['('] + lbl + seq![' '] + a1 + seq![' '] + a2 + seq![' ', '('] + grp + seq![')', ' '] + i1
        + seq!['\n'] + i2 + seq!['\n', ')']
}

/// Where each character of the grouped canonical rendering sits.
#[verifier::rlimit(100)]
proof fn lemma_canonical_grouped_chars(
    lbl: Seq<char>,
    a1: Seq<char>,
    a2: Seq<char>,
    grp: Seq<char>,
    i1: Seq<char>,
    i2: Seq<char>,
)
    ensures
        ({
            let s = canonical_form_grouped(lbl, a1, a2, grp, i1, i2);
            let q2 = 1 + lbl.len() as int;
            let q4 = q2 + 1 + a1.len() as int;
            let q6 = q4 + 1 + a2.len() as int;
            let pg = q6 + 1;
            let pc = pg + 1 + grp.len() as int;
            let q8 = pc + 2;
            let q9 = q8 + i1.len() as int;
            let q11 = q9 + 1 + i2.len() as int;
            &&& s.len() == q11 + 2
            &&& 0 < s.len() ==> s[0] == '('
            &&& forall|k: int| 1 <= k < q2 ==> s[k] == lbl[k - 1]
            &&& s[q2] == ' '
            &&& forall|k: int| q2 + 1 <= k < q4 ==> s[k] == a1[k - q2 - 1]
            &&& s[q4] == ' '
            &&& forall|k: int| q4 + 1 <= k < q6 ==> s[k] == a2[k - q4 - 1]
            &&& s[q6] == ' '
            &&& s[pg] == '('
            &&& forall|k: int| pg + 1 <= k < pc ==> s[k] == grp[k - pg - 1]
            &&& s[pc] == ')'
            &&& s[pc + 1] == ' '
            &&& forall|k: int| q8 <= k < q9 ==> s[k] == i1[k - q8]
            &&& s[q9] == '\n'
            &&& forall|k: int| q9 + 1 <= k < q11 ==> s[k] == i2[k - q9 - 1]
            &&& s[q11] == '\n'
            &&& s[q11 + 1] == ')'
        }),
{
    let s = canonical_form_grouped(lbl, a1, a2, grp, i1, i2);
    let t1 = seq!['('] + lbl;
    let t2 = t1 + seq![' '];
    let t3 = t2 + a1;
    let t4 = t3 + seq![' '];
    let t5 = t4 + a2;
    let t6 = t5 + seq![' ', '('];
    let t7 = t6 + grp;
    let t8 = t7 + seq![')', ' '];
    let t9 = t8 + i1;
    let t10 = t9 + seq!['\n'];
    let t11 = t10 + i2;
    assert(s == t11 + seq!['\n', ')']);
    assert(forall|k: int| 0 <= k < t11.len() ==> s[k] == t11[k]);
    assert(forall|k: int| 0 <= k < t10.len() ==> t11[k] == t10[k]);
    assert(forall|k: int| 0 <= k < t9.len() ==> t10[k] == t9[k]);
    assert(forall|k: int| 0 <= k < t8.len() ==> t9[k] == t8[k]);
    assert(forall|k: int| 0 <= k < t7.len() ==> t8[k] == t7[k]);
    assert(forall|k: int| 0 <= k < t6.len() ==> t7[k] == t6[k]);
    assert(forall|k: int| 0 <= k < t5.len() ==> t6[k] == t5[k]);
    assert(forall|k: int| 0 <= k < t4.len() ==> t5[k] == t4[k]);
    assert(forall|k: int| 0 <= k < t3.len() ==> t4[k] == t3[k]);
    assert(forall|k: int| 0 <= k < t2.len() ==> t3[k] == t2[k]);
    assert(forall|k: int| 0 <= k < t1.len() ==> t2[k] == t1[k]);
    assert(t1[0] == '(');
    assert(forall|k: int| 1 <= k < t1.len() ==> t1[k] == lbl[k - 1]);
    assert(t2[t1.len() as int] == ' ');
    assert(forall|k: int| t2.len() <= k < t3.len() ==> t3[k] == a1[k - t2.len()]);
    assert(t4[t3.len() as int] == ' ');
    assert(forall|k: int| t4.len() <= k < t5.len() ==> t5[k] == a2[k - t4.len()]);
    assert(t6[t5.len() as int] == ' ');
    assert(t6[t5.len() + 1int] == '(');
    assert(forall|k: int| t6.len() <= k < t7.len() ==> t7[k] == grp[k - t6.len()]);
    assert(t8[t7.len() as int] == ')');
    assert(t8[t7.len() + 1int] == ' ');
    assert(forall|k: int| t8.len() <= k < t9.len() ==> t9[k] == i1[k - t8.len()]);
    assert(t10[t9.len() as int] == '\n');
    assert(forall|k: int| t10.len() <= k < t11.len() ==> t11[k] == i2[k - t10.len()]);
    assert(s[t11.len() as int] == '\n');
    assert(s[t11.len() + 1int] == ')');
}

/// The state-machine walk over a text laid out as
/// `(label arg1 arg2 (grp) instr1\ninstr2\n)` with plain tokens: both
/// arguments stay prefix entries because the parenthesized group still lies
/// ahead of them, the group itself is captured verbatim as a third prefix
/// entry, and the two instruction lines are flushed.
#[verifier::rlimit(100)]
proof fn lemma_parse_walk_grouped(
    s: Seq<char>,
    lbl: Seq<char>,
    a1: Seq<char>,
    a2: Seq<char>,
    grp: Seq<char>,
    i1: Seq<char>,
    i2: Seq<char>,
)
    requires
        plain_token(lbl),
        plain_token(a1),
        plain_token(a2),
        plain_token(grp),
        plain_token(i1),
        plain_token(i2),
        ({
            let q2 = 1 + lbl.len() as int;
            let q4 = q2 + 1 + a1.len() as int;
            let q6 = q4 + 1 + a2.len() as int;
            let pg = q6 + 1;
            let pc = pg + 1 + grp.len() as int;
            let q8 = pc + 2;
            let q9 = q8 + i1.len() as int;
            let q11 = q9 + 1 + i2.len() as int;
            &&& s.len() == q11 + 2
            &&& s[0] == '('
            &&& forall|k: int| 1 <= k < q2 ==> s[k] == lbl[k - 1]
            &&& s[q2] == ' '
            &&& forall|k: int| q2 + 1 <= k < q4 ==> s[k] == a1[k - q2 - 1]
            &&& s[q4] == ' '
            &&& forall|k: int| q4 + 1 <= k < q6 ==> s[k] == a2[k - q4 - 1]
            &&& s[q6] == ' '
            &&& s[pg] == '('
            &&& forall|k: int| pg + 1 <= k < pc ==> s[k] == grp[k - pg - 1]
            &&& s[pc] == ')'
            &&& s[pc + 1] == ' '
            &&& forall|k: int| q8 <= k < q9 ==> s[k] == i1[k - q8]
            &&& s[q9] == '\n'
            &&& forall|k: int| q9 + 1 <= k < q11 ==> s[k] == i2[k - q9 - 1]
            &&& s[q11] == '\n'
            &&& s[q11 + 1] == ')'
        }),
    ensures
        parse_tagged_spec(s) == Ok::<TaggedV, ParseError>(
            TaggedV {
                label: lbl,
                prefix: seq![
                    NodeV::Leaf(a1),
                    NodeV::Leaf(a2),
                    NodeV::Leaf(seq!['('] + grp + seq![')']),
                ],
                instructions: seq![NodeV::Leaf(i1), NodeV::Leaf(i2)],
            },
        ),
{
    let q2 = 1 + lbl.len() as int;
    let q3 = q2 + 1;
    let q4 = q3 + a1.len() as int;
    let q5 = q4 + 1;
    let q6 = q5 + a2.len() as int;
    let pg = q6 + 1;
    let pc = pg + 1 + grp.len() as int;
    let q7 = pc + 1;
    let q8 = q7 + 1;
    let q9 = q8 + i1.len() as int;
    let q10 = q9 + 1;
    let q11 = q10 + i2.len() as int;
    let q12 = q11 + 1;

    lemma_trim_plain(a1);
    lemma_trim_plain(a2);
    lemma_trim_plain(i1);
    lemma_trim_plain(i2);

    // The label token accumulates, then the space assigns it.
    let st0 = init_state();
    lemma_parse_run(s, 1, q2, st0);
    assert(st0.buf + s.subrange(1, q2) =~= lbl);
    let st_a = ParseState { buf: lbl, ..st0 };
    assert(parse_from(s, 1, st0) == parse_from(s, q2, st_a));
    assert(parse_from(s, q2, st_a) == parse_from(s, q3, ws_step(s, q3, st_a, ' ')));
    let st_b = ParseState { label: lbl, buf: Seq::empty(), ..st_a };
    assert(ws_step(s, q3, st_a, ' ') == st_b);

    // The first argument becomes the first prefix entry unconditionally.
    lemma_parse_run(s, q3, q4, st_b);
    assert(st_b.buf + s.subrange(q3, q4) =~= a1);
    let st_c = ParseState { buf: a1, ..st_b };
    assert(parse_from(s, q3, st_b) == parse_from(s, q4, st_c));
    assert(parse_from(s, q4, st_c) == parse_from(s, q5, ws_step(s, q5, st_c, ' ')));
    let st_d = ParseState { prefix: seq![a1], buf: Seq::empty(), ..st_c };
    assert(st_c.prefix.push(trim_spec(st_c.buf)) =~= seq![a1]);
    assert(ws_step(s, q5, st_c, ' ') == st_d);

    // The second argument stays a prefix entry because the group lies ahead.
    lemma_parse_run(s, q5, q6, st_d);
    assert(st_d.buf + s.subrange(q5, q6) =~= a2);
    let st_e = ParseState { buf: a2, ..st_d };
    assert(parse_from(s, q5, st_d) == parse_from(s, q6, st_e));
    assert(open_ahead(s, q6 + 1)) by {
        assert(q6 + 1 <= pg < s.len() && s[pg] == '(');
    }
    assert(parse_from(s, q6, st_e) == parse_from(s, pg, ws_step(s, pg, st_e, ' ')));
    let st_f = ParseState { prefix: seq![a1, a2], buf: Seq::empty(), ..st_e };
    assert(st_e.prefix.push(trim_spec(st_e.buf)) =~= seq![a1, a2]);
    assert(ws_step(s, pg, st_e, ' ') == st_f);

    // The group is captured verbatim as the third prefix entry.
    lemma_scan_plain(s, pg + 1, pc);
    assert(crate::scan::scan_end(s, pc, 1) == Some(pc + 1));
    assert(crate::scan::scan_end(s, pg + 1, 1) == Some(q7));
    let cap = s.subrange(pg, q7);
    assert(cap =~= seq!['('] + grp + seq![')']);
    let st_g = ParseState { prefix: seq![a1, a2, cap], buf: Seq::empty(), ..st_f };
    assert(st_f.prefix.push(cap) =~= seq![a1, a2, cap]);
    assert(parse_from(s, pg, st_f) == parse_from(s, q7, st_g));

    // The space after the group finds an empty buffer and changes nothing.
    assert(parse_from(s, q7, st_g) == parse_from(s, q8, ws_step(s, q8, st_g, ' ')));
    assert(ws_step(s, q8, st_g, ' ') == st_g);

    // The first instruction accumulates; no parenthesis lies ahead of the
    // newline, so instruction mode begins and the line is flushed.
    lemma_parse_run(s, q8, q9, st_g);
    assert(st_g.buf + s.subrange(q8, q9) =~= i1);
    let st_h = ParseState { buf: i1, ..st_g };
    assert(parse_from(s, q8, st_g) == parse_from(s, q9, st_h));
    assert(forall|k: int| q10 <= k < s.len() ==> s[k] != '(');
    assert(!open_ahead(s, q10));
    assert(parse_from(s, q9, st_h) == parse_from(s, q10, ws_step(s, q10, st_h, '\n')));
    let st_i = ParseState { instructions: seq![i1], buf: Seq::empty(), instr_mode: true, ..st_h };
    assert(st_h.instructions.push(trim_spec(st_h.buf)) =~= seq![i1]);
    assert(ws_step(s, q10, st_h, '\n') == st_i);

    // The second instruction accumulates and its newline flushes it.
    lemma_parse_run(s, q10, q11, st_i);
    assert(st_i.buf + s.subrange(q10, q11) =~= i2);
    let st_j = ParseState { buf: i2, ..st_i };
    assert(parse_from(s, q10, st_i) == parse_from(s, q11, st_j));
    assert(parse_from(s, q11, st_j) == parse_from(s, q12, ws_step(s, q12, st_j, '\n')));
    let st_k = ParseState { instructions: seq![i1, i2], buf: Seq::empty(), ..st_j };
    assert(st_j.instructions.push(trim_spec(st_j.buf)) =~= seq![i1, i2]);
    assert(ws_step(s, q12, st_j, '\n') == st_k);

    // The closing parenthesis ends the run with nothing pending.
    assert(parse_from(s, q12, st_k) == Ok::<ParseState, ParseError>(st_k));
    assert(parse_from(s, 1, st0) == Ok::<ParseState, ParseError>(st_k));

    assert(leaves(st_k.prefix) =~= seq![
        NodeV::Leaf(a1),
        NodeV::Leaf(a2),
        NodeV::Leaf(seq!['('] + grp + seq![')']),
    ]);
    assert(leaves(st_k.instructions) =~= seq![NodeV::Leaf(i1), NodeV::Leaf(i2)]);
}

/// Parsing the canonical rendering of a tree with two plain arguments, a
/// parenthesized group and two instruction lines yields exactly that tree
/// back: the group keeps both arguments in the prefix, and is itself captured
/// verbatim.
pub proof fn lemma_parse_canonical_grouped(
    lbl: Seq<char>,
    a1: Seq<char>,
    a2: Seq<char>,
    grp: Seq<char>,
    i1: Seq<char>,
    i2: Seq<char>,
)
    requires
        plain_token(lbl),
        plain_token(a1),
        plain_token(a2),
        plain_token(grp),
        plain_token(i1),
        plain_token(i2),
    ensures
        parse_tagged_spec(canonical_form_grouped(lbl, a1, a2, grp, i1, i2)) == Ok::<
            TaggedV,
            ParseError,
        >(
            TaggedV {
                label: lbl,
                prefix: seq![
                    NodeV::Leaf(a1),
                    NodeV::Leaf(a2),
                    NodeV::Leaf(seq!['('] + grp + seq![')']),
                ],
                instructions: seq![NodeV::Leaf(i1), NodeV::Leaf(i2)],
            },
        ),
{
    lemma_canonical_grouped_chars(lbl, a1, a2, grp, i1, i2);
    lemma_parse_walk_grouped(canonical_form_grouped(lbl, a1, a2, grp, i1, i2), lbl, a1, a2, grp,
        i1, i2);
}

} // verus!

