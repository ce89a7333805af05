//! The tagged-form parser.  One top-level parenthesized form is tokenized
//! into a label, prefix entries and instruction lines.  The specification is a
//! character-by-character state machine (`parse_from`); the executable parser
//! is proved to compute exactly its result.

use vstd::prelude::*;

use crate::ast::Node;
use crate::ast::NodeV;
use crate::ast::ParseError;
use crate::ast::Tagged;
use crate::ast::TaggedV;
use crate::ast::lemma_nodes_view_elts;
use crate::ast::nodes_view;
use crate::ast::result_view;
use crate::scan::lemma_scan_end_bounds;
use crate::scan::parse_sexp;
use crate::scan::scan_end;
use crate::text::contains_open;
use crate::text::is_ws;
use crate::text::is_ws_char;
use crate::text::open_ahead;
use crate::text::push_char;
use crate::text::trim_spec;
use crate::text::trim_str;

verus! {

/// The parser's accumulated state while it consumes one form's body: the
/// label once assigned, the prefix and instruction texts collected so far,
/// the pending token buffer, and whether instruction mode has begun.
pub struct ParseState {
    pub label: Seq<char>,
    pub prefix: Seq<Seq<char>>,
    pub instructions: Seq<Seq<char>>,
    pub buf: Seq<char>,
    pub instr_mode: bool,
}

/// The state just after the form's opening parenthesis: everything empty.
pub open spec fn init_state() -> ParseState {
    ParseState {
        label: Seq::empty(),
        prefix: Seq::empty(),
        instructions: Seq::empty(),
        buf: Seq::empty(),
        instr_mode: false,
    }
}

/// The effect of consuming the whitespace character `c`, when the next
/// unconsumed position is `next_i`.  A pending buffer is flushed to the label
/// first, then unconditionally to the first prefix entry; afterwards it goes
/// to the prefix while an opening parenthesis lies ahead, and to the
/// instructions once none does.  Instruction mode, once entered, flushes only
/// on newlines and otherwise keeps the whitespace in the buffer.
pub open spec fn ws_step(s: Seq<char>, next_i: int, st: ParseState, c: char) -> ParseState {
    if st.buf.len() == 0 {
        st
    } else if st.label.len() == 0 {
        ParseState { label: st.buf, buf: Seq::empty(), ..st }
    } else if st.prefix.len() == 0 {
        ParseState { prefix: st.prefix.push(trim_spec(st.buf)), buf: Seq::empty(), ..st }
    } else if !st.instr_mode {
        if open_ahead(s, next_i) {
            ParseState { prefix: st.prefix.push(trim_spec(st.buf)), buf: Seq::empty(), ..st }
        } else if c == '\n' {
            ParseState {
                instr_mode: true,
                instructions: st.instructions.push(trim_spec(st.buf)),
                buf: Seq::empty(),
                ..st
            }
        } else {
            ParseState { instr_mode: true, buf: st.buf.push(c), ..st }
        }
    } else if c == '\n' {
        ParseState { instructions: st.instructions.push(trim_spec(st.buf)), buf: Seq::empty(), ..st }
    } else {
        ParseState { buf: st.buf.push(c), ..st }
    }
}

/// The effect of reaching the form's closing parenthesis: a pending buffer is
/// flushed as a final instruction entry.
pub open spec fn flush_close(st: ParseState) -> ParseState {
    if st.buf.len() == 0 {
        st
    } else {
        ParseState { instructions: st.instructions.push(trim_spec(st.buf)), buf: Seq::empty(), ..st }
    }
}

/// The state machine run from position `i` in state `st` until the form's
/// closing parenthesis or the end of the input.  A nested opening parenthesis
/// captures one balanced group verbatim as a prefix entry; an unbalanced
/// group is the one failure.
pub open spec fn parse_from(s: Seq<char>, i: int, st: ParseState) -> Result<ParseState, ParseError>
    decreases s.len() - i,
    via parse_from_decreases
{
    if i < 0 || i >= s.len() {
        Ok(st)
    } else if s[i] == ')' {
        Ok(flush_close(st))
    } else if is_ws_char(s[i]) {
        parse_from(s, i + 1, ws_step(s, i + 1, st, s[i]))
    } else if s[i] == '(' {
        match scan_end(s, i + 1, 1) {
            Option::None => Err(ParseError::UnbalancedInput),
            Option::Some(e) => parse_from(
                s,
                e,
                ParseState { prefix: st.prefix.push(s.subrange(i, e)), ..st },
            ),
        }
    } else {
        parse_from(s, i + 1, ParseState { buf: st.buf.push(s[i]), ..st })
    }
}

#[via_fn]
proof fn parse_from_decreases(s: Seq<char>, i: int, st: ParseState) {
    if 0 <= i < s.len() && s[i] == '(' {
        match scan_end(s, i + 1, 1) {
            Option::None => {},
            Option::Some(e) => {
                lemma_scan_end_bounds(s, i + 1, 1, e);
            },
        }
    }
}

/// Each collected text as an unparsed leaf node.
pub open spec fn leaves(xs: Seq<Seq<char>>) -> Seq<NodeV> {
    Seq::new(xs.len(), |i: int| NodeV::Leaf(xs[i]))
}

/// The tree a final parser state denotes.
pub open spec fn state_tree(st: ParseState) -> TaggedV {
    TaggedV { label: st.label, prefix: leaves(st.prefix), instructions: leaves(st.instructions) }
}

/// What parsing an input returns: the parsed tree, or the failure.  The input
/// must open with a parenthesis, and the run must have assigned a label.
pub open spec fn parse_tagged_spec(s: Seq<char>) -> Result<TaggedV, ParseError> {
    if s.len() == 0 || s[0] != '(' {
        Err(ParseError::MissingOpenParen)
    } else {
        match parse_from(s, 1, init_state()) {
            Err(e) => Err(e),
            Ok(st) => if st.label.len() == 0 {
                Err(ParseError::MissingLabel)
            } else {
                Ok(state_tree(st))
            },
        }
    }
}

/// The total length of the collected raw prefix texts.
pub open spec fn raw_sum(xs: Seq<Seq<char>>) -> int
    decreases xs.len(),
{
    if xs.len() == 0 {
        0
    } else {
        xs[0].len() + raw_sum(xs.drop_first())
    }
}

proof fn lemma_raw_sum_push(xs: Seq<Seq<char>>, x: Seq<char>)
    ensures
        raw_sum(xs.push(x)) == raw_sum(xs) + x.len(),
    decreases xs.len(),
{
    if xs.len() == 0 {
        assert(xs.push(x).drop_first() =~= xs);
    } else {
        assert(xs.push(x).drop_first() =~= xs.drop_first().push(x));
        lemma_raw_sum_push(xs.drop_first(), x);
    }
}

/// Every character of a prefix entry was consumed from the input, so the
/// total prefix text the run collects is bounded by the input it consumes.
proof fn lemma_parse_from_weight(s: Seq<char>, i: int, st: ParseState)
    ensures
        match parse_from(s, i, st) {
            Ok(st2) => raw_sum(st2.prefix) <= raw_sum(st.prefix) + st.buf.len() + (if i < s.len() {
                s.len() - i
            } else {
                0
            }),
            Err(_) => true,
        },
    decreases s.len() - i,
{
    if i < 0 || i >= s.len() {
    } else if s[i] == ')' {
    } else if is_ws_char(s[i]) {
        let st2 = ws_step(s, i + 1, st, s[i]);
        crate::text::lemma_trim_len(st.buf);
        if st.buf.len() > 0 && st.label.len() > 0 && (st.prefix.len() == 0 || (!st.instr_mode
            && open_ahead(s, i + 1))) {
            lemma_raw_sum_push(st.prefix, trim_spec(st.buf));
        }
        lemma_parse_from_weight(s, i + 1, st2);
    } else if s[i] == '(' {
        match scan_end(s, i + 1, 1) {
            Option::None => {},
            Option::Some(e) => {
                lemma_scan_end_bounds(s, i + 1, 1, e);
                lemma_raw_sum_push(st.prefix, s.subrange(i, e));
                lemma_parse_from_weight(
                    s,
                    e,
                    ParseState { prefix: st.prefix.push(s.subrange(i, e)), ..st },
                );
            },
        }
    } else {
        lemma_parse_from_weight(s, i + 1, ParseState { buf: st.buf.push(s[i]), ..st });
    }
}

proof fn lemma_leaves_weight(xs: Seq<Seq<char>>)
    ensures
        crate::ast::prefix_weight(leaves(xs)) == raw_sum(xs),
    decreases xs.len(),
{
    if xs.len() > 0 {
        assert(leaves(xs).drop_first() =~= leaves(xs.drop_first()));
        lemma_leaves_weight(xs.drop_first());
    }
}

/// A successfully parsed tree's prefix entries together hold strictly fewer
/// characters than the input they came from.
pub proof fn lemma_parse_ok_weight(s: Seq<char>)
    ensures
        match parse_tagged_spec(s) {
            Ok(tv) => crate::ast::prefix_weight(tv.prefix) < s.len(),
            Err(_) => true,
        },
{
    if s.len() > 0 && s[0] == '(' {
        match parse_from(s, 1, init_state()) {
            Ok(st) => {
                lemma_parse_from_weight(s, 1, init_state());
                lemma_leaves_weight(st.prefix);
            },
            Err(_) => {},
        }
    }
}

/// A parser state assembled from the executable parser's variables.
pub open spec fn exec_state(
    label: Seq<char>,
    prefix: Seq<Seq<char>>,
    instructions: Seq<Seq<char>>,
    buf: Seq<char>,
    instr_mode: bool,
) -> ParseState {
    ParseState { label, prefix, instructions, buf, instr_mode }
}

/// Turns collected texts into leaf nodes.
fn leaves_vec(xs: Vec<String>) -> (r: Vec<Node>)
    ensures
        nodes_view(r@) == leaves(xs.deep_view()),
{
    let mut r: Vec<Node> = Vec::new();
    let mut k: usize = 0;
    while k < xs.len()
        invariant
            k <= xs.len(),
            r@.len() == k,
            forall|j: int|
                0 <= j < k ==> crate::ast::node_view(r@[j]) == NodeV::Leaf(xs.deep_view()[j]),
        decreases xs.len() - k,
    {
        let s = xs[k].clone();
        r.push(Node::Leaf(s));
        k = k + 1;
    }
    proof {
        lemma_nodes_view_elts(r@);
        assert(nodes_view(r@) =~= leaves(xs.deep_view()));
    }
    r
}

/// Parses one top-level tagged form.
///
/// The result is exactly what the specification state machine computes:
/// `MissingOpenParen` when the input does not start with `(`, the failure of
/// the run otherwise, `MissingLabel` when the run assigned no label, and the
/// parsed tree else.
pub fn parse_tagged(input: &str) -> (r: Result<Tagged, ParseError>)
    ensures
        result_view(r) == parse_tagged_spec(input@),
        r matches Ok(t) ==> crate::ast::prefix_weight(t@.prefix) < input@.len(),
{
    proof {
        lemma_parse_ok_weight(input@);
    }
    let n = input.unicode_len();
    if n == 0 || input.get_char(0) != '(' {
        return Err(ParseError::MissingOpenParen);
    }
    let mut label = String::new();
    let mut prefix: Vec<String> = Vec::new();
    let mut instructions: Vec<String> = Vec::new();
    let mut buf = String::new();
    let mut instr_mode = false;
    let mut done = false;
    let mut index: usize = 1;

    proof {
        assert(prefix.deep_view() =~= Seq::<Seq<char>>::empty());
        assert(instructions.deep_view() =~= Seq::<Seq<char>>::empty());
    }

    while index < n && !done
        invariant
            n == input@.len(),
            1 <= index <= n,
            input@[0] == '(',
            !done ==> parse_from(input@, 1, init_state()) == parse_from(
                input@,
                index as int,
                exec_state(label@, prefix.deep_view(), instructions.deep_view(), buf@, instr_mode),
            ),
            done ==> parse_from(input@, 1, init_state()) == Ok::<ParseState, ParseError>(
                exec_state(label@, prefix.deep_view(), instructions.deep_view(), buf@, instr_mode),
            ),
        decreases n - index,
    {
        let ghost st0 = exec_state(
            label@,
            prefix.deep_view(),
            instructions.deep_view(),
            buf@,
            instr_mode,
        );
        let ghost at = index as int;
        let c = input.get_char(index);
        index = index + 1;

        if c == ')' {
            if !buf.as_str().is_empty() {
                let t = trim_str(buf.as_str());
                instructions.push(t);
                buf = String::new();
                proof {
                    assert(instructions.deep_view() =~= st0.instructions.push(trim_spec(st0.buf)));
                }
            }
            done = true;
            proof {
                let st1 = exec_state(
                    label@,
                    prefix.deep_view(),
                    instructions.deep_view(),
                    buf@,
                    instr_mode,
                );
                assert(st1 == flush_close(st0));
                assert(parse_from(input@, at, st0) == Ok::<ParseState, ParseError>(st1));
            }
        } else if is_ws(c) {
            if !buf.as_str().is_empty() {
                if label.as_str().is_empty() {
                    label = buf;
                    buf = String::new();
                } else if prefix.len() == 0 {
                    let t = trim_str(buf.as_str());
                    prefix.push(t);
                    buf = String::new();
                    proof {
                        assert(prefix.deep_view() =~= st0.prefix.push(trim_spec(st0.buf)));
                    }
                } else if !instr_mode {
                    let ahead = contains_open(input, index);
                    if ahead {
                        let t = trim_str(buf.as_str());
                        prefix.push(t);
                        buf = String::new();
                        proof {
                            assert(prefix.deep_view() =~= st0.prefix.push(trim_spec(st0.buf)));
                        }
                    } else {
                        instr_mode = true;
                        if c == '\n' {
                            let t = trim_str(buf.as_str());
                            instructions.push(t);
                            buf = String::new();
                            proof {
                                assert(instructions.deep_view() =~= st0.instructions.push(
                                    trim_spec(st0.buf),
                                ));
                            }
                        } else {
                            push_char(&mut buf, c);
                        }
                    }
                } else {
                    if c == '\n' {
                        let t = trim_str(buf.as_str());
                        instructions.push(t);
                        buf = String::new();
                        proof {
                            assert(instructions.deep_view() =~= st0.instructions.push(
                                trim_spec(st0.buf),
                            ));
                        }
                    } else {
                        push_char(&mut buf, c);
                    }
                }
            }
            proof {
                let st1 = exec_state(
                    label@,
                    prefix.deep_view(),
                    instructions.deep_view(),
                    buf@,
                    instr_mode,
                );
                assert(st1 == ws_step(input@, at + 1, st0, c));
                assert(parse_from(input@, at, st0) == parse_from(input@, at + 1, st1));
            }
        } else if c == '(' {
            match parse_sexp(input, index - 1) {
                Ok(p) => {
                    let (sexp, new_index) = p;
                    index = new_index;
                    prefix.push(sexp);
                    proof {
                        lemma_scan_end_bounds(input@, at + 1, 1, new_index as int);
                        assert(prefix.deep_view() =~= st0.prefix.push(
                            input@.subrange(at, new_index as int),
                        ));
                        let st1 = exec_state(
                            label@,
                            prefix.deep_view(),
                            instructions.deep_view(),
                            buf@,
                            instr_mode,
                        );
                        assert(parse_from(input@, at, st0) == parse_from(
                            input@,
                            new_index as int,
                            st1,
                        ));
                    }
                },
                Err(e) => {
                    proof {
                        assert(parse_from(input@, at, st0) == Err::<ParseState, ParseError>(
                            ParseError::UnbalancedInput,
                        ));
                    }
                    return Err(e);
                },
            }
        } else {
            push_char(&mut buf, c);
            proof {
                let st1 = exec_state(
                    label@,
                    prefix.deep_view(),
                    instructions.deep_view(),
                    buf@,
                    instr_mode,
                );
                assert(st1 == ParseState { buf: st0.buf.push(c), ..st0 });
                assert(parse_from(input@, at, st0) == parse_from(input@, at + 1, st1));
            }
        }
    }

    proof {
        let stf = exec_state(
            label@,
            prefix.deep_view(),
            instructions.deep_view(),
            buf@,
            instr_mode,
        );
        assert(parse_from(input@, 1, init_state()) == Ok::<ParseState, ParseError>(stf));
    }

    if label.as_str().is_empty() {
        return Err(ParseError::MissingLabel);
    }

    let ghost stf = exec_state(
        label@,
        prefix.deep_view(),
        instructions.deep_view(),
        buf@,
        instr_mode,
    );
    let p_nodes = leaves_vec(prefix);
    let i_nodes = leaves_vec(instructions);
    let t = Tagged { label, prefix: p_nodes, instructions: i_nodes };
    proof {
        assert(t@ == state_tree(stf));
    }
    Ok(t)
}

} // verus!
