//! The scope-normalization pass: an instruction line that opens a structured
//! region (`block` or `loop` at its head) gains an opening parenthesis
//! directly in front of its text, and a line that is exactly `end` becomes a
//! single closing parenthesis.  Every other entry, and the whole prefix list,
//! is carried over unchanged.

use vstd::prelude::*;

use crate::ast::Node;
use crate::ast::NodeV;
use crate::ast::Tagged;
use crate::ast::TaggedV;
use crate::ast::lemma_nodes_view_elts;
use crate::ast::node_view;
use crate::ast::nodes_view;
use crate::ast::tagged_view;
use crate::text::block_kw;
use crate::text::end_kw;
use crate::text::is_end_kw;
use crate::text::loop_kw;
use crate::text::push_char;
use crate::text::seq_starts_with;
use crate::text::starts_with_block;
use crate::text::starts_with_loop;

verus! {

/// What normalizing one instruction entry returns.
pub open spec fn scopey_entry(n: NodeV) -> NodeV {
    match n {
        NodeV::Leaf(s) => {
            if seq_starts_with(s, block_kw()) || seq_starts_with(s, loop_kw()) {
                NodeV::Leaf(seq!['('] + s)
            } else if s == end_kw() {
                NodeV::Leaf(seq![')'])
            } else {
                NodeV::Leaf(s)
            }
        },
        NodeV::Form(t) => NodeV::Form(t),
    }
}

/// What normalizing a whole tree returns: each instruction entry rewritten in
/// place, the label and the prefix untouched.
pub open spec fn scopey_spec(t: TaggedV) -> TaggedV {
    TaggedV {
        label: t.label,
        prefix: t.prefix,
        instructions: Seq::new(t.instructions.len(), |i: int| scopey_entry(t.instructions[i])),
    }
}

/// An instruction entry that normalization would leave as it is: a parsed
/// form, or a leaf that neither opens a scope nor is exactly `end`.
pub open spec fn entry_normalized(n: NodeV) -> bool {
    match n {
        NodeV::Leaf(s) => !seq_starts_with(s, block_kw()) && !seq_starts_with(s, loop_kw()) && s
            != end_kw(),
        NodeV::Form(_) => true,
    }
}

/// Normalization leaves every entry it produces normalized: a rewritten line
/// now starts with a parenthesis, which no scope keyword does.
pub proof fn lemma_scopey_entry_normalized(n: NodeV)
    ensures
        entry_normalized(scopey_entry(n)),
{
    match n {
        NodeV::Leaf(s) => {
            if seq_starts_with(s, block_kw()) || seq_starts_with(s, loop_kw()) {
                let w = seq!['('] + s;
                assert(w[0] == '(');
                if seq_starts_with(w, block_kw()) {
                    assert(w.subrange(0, 5)[0] == w[0]);
                }
                if seq_starts_with(w, loop_kw()) {
                    assert(w.subrange(0, 4)[0] == w[0]);
                }
                assert(w != end_kw());
            } else if s == end_kw() {
                let w = seq![')'];
                if seq_starts_with(w, block_kw()) {
                    assert(w.subrange(0, 5)[0] == w[0]);
                }
            }
        },
        NodeV::Form(_) => {},
    }
}

/// On a tree whose instruction entries are all already normalized — no leaf
/// opens with `block` or `loop` and none is exactly `end` — normalization is
/// a no-op.
pub proof fn lemma_scopey_noop(t: TaggedV)
    requires
        forall|i: int| 0 <= i < t.instructions.len() ==> entry_normalized(t.instructions[i]),
    ensures
        scopey_spec(t) == t,
{
    assert(scopey_spec(t).instructions =~= t.instructions);
}

/// Normalizing twice is the same as normalizing once.
pub proof fn lemma_scopey_idempotent(t: TaggedV)
    ensures
        scopey_spec(scopey_spec(t)) == scopey_spec(t),
{
    let u = scopey_spec(t);
    assert forall|i: int| 0 <= i < u.instructions.len() implies entry_normalized(
        u.instructions[i],
    ) by {
        lemma_scopey_entry_normalized(t.instructions[i]);
    }
    lemma_scopey_noop(u);
}

/// Rewrites each instruction line that opens with `block` or `loop` by
/// prefixing an opening parenthesis onto its text, and each line that is
/// exactly `end` into a single closing parenthesis; everything else — the
/// label, the prefix entries, and all other instruction entries — is
/// returned unchanged.
pub fn replace_scopey(x: Tagged) -> (r: Tagged)
    ensures
        r@ == scopey_spec(x@),
        r@.prefix == x@.prefix,
        r@.label == x@.label,
{
    let ghost full = nodes_view(x.instructions@);
    let Tagged { label, prefix, instructions } = x;
    let ghost i0 = instructions@;

    let mut src_v = instructions;
    let mut rev: Vec<Node> = Vec::new();
    while src_v.len() > 0
        invariant
            src_v@.len() + rev@.len() == i0.len(),
            src_v@ == i0.subrange(0, src_v@.len() as int),
            forall|j: int| 0 <= j < rev@.len() ==> rev@[j] == i0[i0.len() - 1 - j],
        decreases src_v.len(),
    {
        let n = src_v.pop().unwrap();
        rev.push(n);
        proof {
            assert(src_v@ =~= i0.subrange(0, src_v@.len() as int));
            assert(n == i0[src_v@.len() as int]);
        }
    }

    let mut out: Vec<Node> = Vec::new();
    proof {
        lemma_nodes_view_elts(i0);
    }
    while rev.len() > 0
        invariant
            rev@.len() <= i0.len(),
            full.len() == i0.len(),
            full == nodes_view(i0),
            out@.len() == i0.len() - rev@.len(),
            forall|j: int| 0 <= j < rev@.len() ==> rev@[j] == i0[i0.len() - 1 - j],
            forall|i: int| 0 <= i < i0.len() ==> full[i] == node_view(i0[i]),
            forall|j: int| 0 <= j < out@.len() ==> node_view(out@[j]) == scopey_entry(full[j]),
        decreases rev@.len(),
    {
        let ghost k = i0.len() - rev@.len();
        let n = rev.pop().unwrap();
        proof {
            assert(n == i0[k as int]);
            assert(node_view(n) == full[k as int]);
        }
        match n {
            Node::Leaf(s) => {
                if starts_with_block(s.as_str()) || starts_with_loop(s.as_str()) {
                    let mut w = String::new();
                    push_char(&mut w, '(');
                    w.append(s.as_str());
                    proof {
                        assert(w@ =~= seq!['('] + s@);
                    }
                    out.push(Node::Leaf(w));
                } else if is_end_kw(s.as_str()) {
                    let mut w = String::new();
                    push_char(&mut w, ')');
                    proof {
                        assert(w@ =~= seq![')']);
                    }
                    out.push(Node::Leaf(w));
                } else {
                    out.push(Node::Leaf(s));
                }
            },
            Node::Form(t) => {
                out.push(Node::Form(t));
            },
        }
    }

    let t = Tagged { label, prefix, instructions: out };
    proof {
        lemma_nodes_view_elts(t.instructions@);
        lemma_nodes_view_elts(t.prefix@);
        assert(nodes_view(t.instructions@) =~= scopey_spec(tagged_view(x)).instructions);
        assert(t@ == scopey_spec(x@));
    }
    t
}

} // verus!
