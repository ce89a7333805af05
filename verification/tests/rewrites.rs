use watnorm::Node;
use watnorm::ParseError;
use watnorm::Tagged;
use watnorm::parse_tagged;
use watnorm::replace_scopey;
use watnorm::unfold_funcs;

fn leaf(s: &str) -> Node {
    Node::Leaf(s.to_string())
}

fn tree(label: &str, prefix: Vec<Node>, instructions: Vec<Node>) -> Tagged {
    Tagged { label: label.to_string(), prefix, instructions }
}

#[test]
fn unfold_nested_func() {
    let t = parse_tagged("(block (func x y\nz\n)\ninstr\n)").unwrap();
    assert_eq!(t.label, "block");
    assert_eq!(t.prefix, vec![leaf("(func x y\nz\n)")]);
    assert_eq!(t.instructions, vec![leaf("instr")]);

    let u = unfold_funcs(t).unwrap();
    assert_eq!(u.label, "block");
    assert_eq!(u.instructions, vec![leaf("instr")]);
    assert_eq!(u.prefix.len(), 1);
    match &u.prefix[0] {
        Node::Form(f) => {
            assert_eq!(f.label, "func");
            assert_eq!(f.prefix, vec![leaf("x")]);
            assert_eq!(f.instructions, vec![leaf("y"), leaf("z")]);
        },
        Node::Leaf(_) => panic!("nested func was not unfolded"),
    }
}

#[test]
fn unfold_keeps_plain_leaves() {
    let t = tree("m", vec![leaf("a"), leaf("(other x)")], vec![leaf("i")]);
    let u = unfold_funcs(t).unwrap();
    assert_eq!(u.prefix, vec![leaf("a"), leaf("(other x)")]);
    assert_eq!(u.instructions, vec![leaf("i")]);
}

#[test]
fn unfold_keeps_form_nodes() {
    let inner = tree("func", vec![leaf("x")], vec![]);
    let t = tree("m", vec![Node::Form(inner)], vec![]);
    let u = unfold_funcs(t).unwrap();
    let expected_inner = tree("func", vec![leaf("x")], vec![]);
    assert_eq!(u.prefix, vec![Node::Form(expected_inner)]);
}

#[test]
fn unfold_reports_reparse_failure() {
    let t = tree("m", vec![leaf("(func (x")], vec![]);
    let e = unfold_funcs(t).unwrap_err();
    assert_eq!(e, ParseError::ReparseFailure);
    assert_eq!(e.message(), "Failed to re-parse an inlined function");
}

#[test]
fn unfold_preserves_instructions() {
    let t = tree(
        "m",
        vec![leaf("(func x y\n)")],
        vec![leaf("one"), leaf("two"), leaf("end")],
    );
    let u = unfold_funcs(t).unwrap();
    assert_eq!(u.instructions, vec![leaf("one"), leaf("two"), leaf("end")]);
}

#[test]
fn scopey_rewrites_loop_instruction() {
    let t = tree("f", vec![leaf("a")], vec![leaf("loop $L0")]);
    let r = replace_scopey(t);
    assert_eq!(r.instructions, vec![leaf("(loop $L0")]);
}

#[test]
fn scopey_rewrites_end_instruction() {
    let t = tree("f", vec![], vec![leaf("end")]);
    let r = replace_scopey(t);
    assert_eq!(r.instructions, vec![leaf(")")]);
}

#[test]
fn scopey_matches_keyword_prefixes() {
    let t = tree("f", vec![], vec![leaf("block $B"), leaf("blocked1")]);
    let r = replace_scopey(t);
    assert_eq!(r.instructions, vec![leaf("(block $B"), leaf("(blocked1")]);
}

#[test]
fn scopey_keeps_prefix_and_label() {
    let t = tree("f", vec![leaf("a"), leaf("(x y)")], vec![leaf("block"), leaf("end")]);
    let r = replace_scopey(t);
    assert_eq!(r.label, "f");
    assert_eq!(r.prefix, vec![leaf("a"), leaf("(x y)")]);
}

#[test]
fn scopey_keeps_other_instructions() {
    let t = tree("f", vec![], vec![leaf("i32.add"), leaf("endx"), leaf("lo")]);
    let r = replace_scopey(t);
    assert_eq!(r.instructions, vec![leaf("i32.add"), leaf("endx"), leaf("lo")]);
}

#[test]
fn scopey_keeps_form_nodes() {
    let inner = tree("func", vec![], vec![leaf("end")]);
    let t = tree("f", vec![], vec![Node::Form(inner)]);
    let r = replace_scopey(t);
    let expected_inner = tree("func", vec![], vec![leaf("end")]);
    assert_eq!(r.instructions, vec![Node::Form(expected_inner)]);
}

#[test]
fn scopey_is_idempotent() {
    let make = || {
        tree(
            "f",
            vec![leaf("a")],
            vec![leaf("block $B"), leaf("i32.add"), leaf("loop $L"), leaf("end")],
        )
    };
    let once = replace_scopey(make());
    let twice = replace_scopey(replace_scopey(make()));
    assert_eq!(once, twice);
}

#[test]
fn full_pipeline_on_single_form() {
    let t = parse_tagged("(func a b\ni32.add\nend\n)").unwrap();
    let u = unfold_funcs(t).unwrap();
    let r = replace_scopey(u);
    assert_eq!(r.label, "func");
    assert_eq!(r.prefix, vec![leaf("a")]);
    assert_eq!(r.instructions, vec![leaf("b"), leaf("i32.add"), leaf(")")]);
}
