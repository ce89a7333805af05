//! The function-unfolding pass: each prefix entry that is an unparsed leaf
//! beginning with the inlined-function marker `(func ` is re-parsed and
//! recursively unfolded into a nested `Form` node; every other entry, and the
//! whole instruction list, is carried over unchanged.  A failing re-parse is
//! reported as `ReparseFailure`.

use vstd::prelude::*;

use crate::ast::Node;
use crate::ast::NodeV;
use crate::ast::ParseError;
use crate::ast::Tagged;
use crate::ast::TaggedV;
use crate::ast::lemma_nodes_view_push;
use crate::ast::lemma_prefix_weight_elt;
use crate::ast::node_view;
use crate::ast::node_weight;
use crate::ast::nodes_view;
use crate::ast::prefix_weight;
use crate::ast::result_view;
use crate::ast::tagged_view;
use crate::parse::lemma_parse_ok_weight;
use crate::parse::parse_tagged;
use crate::parse::parse_tagged_spec;
use crate::text::func_marker;
use crate::text::seq_starts_with;
use crate::text::starts_with_func_marker;

verus! {

/// What unfolding one prefix entry returns.
pub open spec fn unfold_entry(n: NodeV) -> Result<NodeV, ParseError>
    decreases node_weight(n), 0nat, 2nat,
    via unfold_entry_decreases
{
    match n {
        NodeV::Leaf(s) => {
            if seq_starts_with(s, func_marker()) {
                match parse_tagged_spec(s) {
                    Err(_) => Err(ParseError::ReparseFailure),
                    Ok(t) => match unfold_spec(t) {
                        Err(e) => Err(e),
                        Ok(u) => Ok(NodeV::Form(u)),
                    },
                }
            } else {
                Ok(NodeV::Leaf(s))
            }
        },
        NodeV::Form(t) => Ok(NodeV::Form(t)),
    }
}

#[via_fn]
proof fn unfold_entry_decreases(n: NodeV) {
    match n {
        NodeV::Leaf(s) => {
            lemma_parse_ok_weight(s);
        },
        NodeV::Form(_) => {},
    }
}

/// What unfolding a list of prefix entries returns: the rewritten entries in
/// order, or the first failure.
pub open spec fn unfold_entries(p: Seq<NodeV>) -> Result<Seq<NodeV>, ParseError>
    decreases prefix_weight(p), p.len(), 0nat,
    via unfold_entries_decreases
{
    if p.len() == 0 {
        Ok(Seq::empty())
    } else {
        match unfold_entry(p[0]) {
            Err(e) => Err(e),
            Ok(n0) => match unfold_entries(p.drop_first()) {
                Err(e) => Err(e),
                Ok(rest) => Ok(seq![n0] + rest),
            },
        }
    }
}

#[via_fn]
proof fn unfold_entries_decreases(p: Seq<NodeV>) {
    if p.len() > 0 {
        lemma_prefix_weight_elt(p, 0);
    }
}

/// What unfolding a whole tree returns: the prefix rewritten entry by entry,
/// the label and the instructions untouched.
pub open spec fn unfold_spec(t: TaggedV) -> Result<TaggedV, ParseError>
    decreases prefix_weight(t.prefix), t.prefix.len(), 1nat,
{
    match unfold_entries(t.prefix) {
        Err(e) => Err(e),
        Ok(newp) => Ok(TaggedV { label: t.label, prefix: newp, instructions: t.instructions }),
    }
}

/// Unfolding never touches a tree's instruction list or its label.
pub proof fn lemma_unfold_preserves_instructions(t: TaggedV)
    ensures
        unfold_spec(t) matches Ok(u) ==> u.instructions == t.instructions && u.label == t.label,
{
}

/// The result of unfolding the entries from position `k` on, appended to the
/// already rewritten entries `done`.
pub open spec fn unfold_rest(full: Seq<NodeV>, k: int, done: Seq<NodeV>) -> Result<
    Seq<NodeV>,
    ParseError,
> {
    match unfold_entries(full.subrange(k, full.len() as int)) {
        Err(e) => Err(e),
        Ok(r) => Ok(done + r),
    }
}

/// Rewrites each prefix entry that is a leaf beginning with `(func ` into a
/// fully parsed, recursively unfolded `Form` node; all other prefix entries
/// and the instruction list are returned unchanged.  Fails with
/// `ReparseFailure` when such a leaf does not parse.
pub fn unfold_funcs(x: Tagged) -> (r: Result<Tagged, ParseError>)
    ensures
        result_view(r) == unfold_spec(x@),
        r matches Ok(u) ==> u@.instructions == x@.instructions && u@.label == x@.label,
    decreases prefix_weight(tagged_view(x).prefix),
{
    let ghost full = nodes_view(x.prefix@);
    let Tagged { label, prefix, instructions } = x;
    let ghost p0 = prefix@;

    let mut src_v = prefix;
    let mut rev: Vec<Node> = Vec::new();
    while src_v.len() > 0
        invariant
            src_v@.len() + rev@.len() == p0.len(),
            src_v@ == p0.subrange(0, src_v@.len() as int),
            forall|j: int| 0 <= j < rev@.len() ==> rev@[j] == p0[p0.len() - 1 - j],
        decreases src_v.len(),
    {
        let n = src_v.pop().unwrap();
        rev.push(n);
        proof {
            assert(src_v@ =~= p0.subrange(0, src_v@.len() as int));
            assert(n == p0[src_v@.len() as int]);
        }
    }

    let mut new_prefix: Vec<Node> = Vec::new();
    proof {
        crate::ast::lemma_nodes_view_elts(p0);
        assert(full.subrange(0, full.len() as int) =~= full);
        match unfold_entries(full) {
            Err(_) => {},
            Ok(r) => {
                assert(nodes_view(new_prefix@) + r =~= r);
            },
        }
        assert(unfold_entries(full) == unfold_rest(full, 0, nodes_view(new_prefix@)));
    }
    while rev.len() > 0
        invariant
            rev@.len() <= full.len(),
            full.len() == p0.len(),
            full == nodes_view(p0),
            full == tagged_view(x).prefix,
            forall|j: int| 0 <= j < rev@.len() ==> rev@[j] == p0[p0.len() - 1 - j],
            forall|i: int| 0 <= i < p0.len() ==> full[i] == node_view(p0[i]),
            unfold_entries(full) == unfold_rest(
                full,
                full.len() - rev@.len(),
                nodes_view(new_prefix@),
            ),
        decreases rev@.len(),
    {
        let ghost k = full.len() - rev@.len();
        let ghost done0 = nodes_view(new_prefix@);
        let ghost rem = full.subrange(k as int, full.len() as int);
        proof {
            assert(rem[0] == full[k as int]);
            assert(rem.drop_first() =~= full.subrange(k as int + 1, full.len() as int));
        }
        let n = rev.pop().unwrap();
        proof {
            assert(n == p0[k as int]);
            assert(node_view(n) == full[k as int]);
        }
        let ghost entry_res = unfold_entry(full[k as int]);
        match n {
            Node::Leaf(s) => {
                if starts_with_func_marker(s.as_str()) {
                    match parse_tagged(s.as_str()) {
                        Ok(ft) => {
                            proof {
                                lemma_prefix_weight_elt(full, k as int);
                                assert(parse_tagged_spec(s@) == Ok::<TaggedV, ParseError>(ft@));
                                assert(tagged_view(x).prefix == full);
                                assert(full[k as int] == NodeV::Leaf(s@));
                                assert(node_weight(full[k as int]) == s@.len());
                                assert(prefix_weight(tagged_view(ft).prefix) < prefix_weight(
                                    tagged_view(x).prefix,
                                ));
                            }
                            match unfold_funcs(ft) {
                                Ok(u) => {
                                    proof {
                                        assert(entry_res == Ok::<NodeV, ParseError>(
                                            NodeV::Form(u@),
                                        ));
                                        lemma_nodes_view_push(new_prefix@, Node::Form(u));
                                    }
                                    new_prefix.push(Node::Form(u));
                                },
                                Err(e) => {
                                    proof {
                                        assert(entry_res == Err::<NodeV, ParseError>(e));
                                        assert(unfold_entries(rem) == Err::<
                                            Seq<NodeV>,
                                            ParseError,
                                        >(e));
                                    }
                                    return Err(e);
                                },
                            }
                        },
                        Err(_) => {
                            proof {
                                assert(entry_res == Err::<NodeV, ParseError>(
                                    ParseError::ReparseFailure,
                                ));
                                assert(unfold_entries(rem) == Err::<Seq<NodeV>, ParseError>(
                                    ParseError::ReparseFailure,
                                ));
                            }
                            return Err(ParseError::ReparseFailure);
                        },
                    }
                } else {
                    proof {
                        assert(entry_res == Ok::<NodeV, ParseError>(NodeV::Leaf(s@)));
                        lemma_nodes_view_push(new_prefix@, Node::Leaf(s));
                    }
                    new_prefix.push(Node::Leaf(s));
                }
            },
            Node::Form(t) => {
                proof {
                    assert(entry_res == Ok::<NodeV, ParseError>(NodeV::Form(tagged_view(t))));
                    lemma_nodes_view_push(new_prefix@, Node::Form(t));
                }
                new_prefix.push(Node::Form(t));
            },
        }
        proof {
            let n0 = entry_res->Ok_0;
            assert(nodes_view(new_prefix@) == done0.push(n0));
            match unfold_entries(rem.drop_first()) {
                Err(_) => {},
                Ok(r2) => {
                    assert(done0 + (seq![n0] + r2) =~= done0.push(n0) + r2);
                },
            }
            assert(unfold_entries(full) == unfold_rest(
                full,
                full.len() - rev@.len(),
                nodes_view(new_prefix@),
            ));
        }
    }

    proof {
        let kf = full.len() as int;
        assert(full.subrange(kf, kf).len() == 0);
        assert(unfold_entries(full.subrange(kf, kf)) == Ok::<Seq<NodeV>, ParseError>(Seq::empty()));
        match unfold_entries(full) {
            Err(_) => {},
            Ok(r) => {
                assert(nodes_view(new_prefix@) + Seq::<NodeV>::empty() =~= nodes_view(
                    new_prefix@,
                ));
            },
        }
        assert(unfold_entries(full) == Ok::<Seq<NodeV>, ParseError>(nodes_view(new_prefix@)));
    }
    let t = Tagged { label, prefix: new_prefix, instructions };
    proof {
        assert(unfold_spec(x@) == Ok::<TaggedV, ParseError>(t@));
    }
    Ok(t)
}

} // verus!
