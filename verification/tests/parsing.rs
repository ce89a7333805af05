use watnorm::Node;
use watnorm::ParseError;
use watnorm::parse_sexp;
use watnorm::parse_tagged;

fn leaf(s: &str) -> Node {
    Node::Leaf(s.to_string())
}

#[test]
fn parse_single_form() {
    let t = parse_tagged("(func a b\ni32.add\nend\n)").unwrap();
    assert_eq!(t.label, "func");
    assert_eq!(t.prefix, vec![leaf("a")]);
    assert_eq!(t.instructions, vec![leaf("b"), leaf("i32.add"), leaf("end")]);
}

#[test]
fn parse_missing_open_paren() {
    assert_eq!(parse_tagged("loop foo"), Err(ParseError::MissingOpenParen));
}

#[test]
fn parse_empty_form_has_no_label() {
    assert_eq!(parse_tagged("()"), Err(ParseError::MissingLabel));
}

#[test]
fn parse_single_token_has_no_label() {
    assert_eq!(parse_tagged("(abc)"), Err(ParseError::MissingLabel));
}

#[test]
fn parse_unbalanced_nested_group() {
    assert_eq!(parse_tagged("(f a (b"), Err(ParseError::UnbalancedInput));
}

#[test]
fn scanner_captures_balanced_group() {
    let (cap, next) = parse_sexp("(a (b) c)", 0).unwrap();
    assert_eq!(cap, "(a (b) c)");
    assert_eq!(next, 9);
}

#[test]
fn scanner_starts_mid_string() {
    let (cap, next) = parse_sexp("xy(ab)z", 2).unwrap();
    assert_eq!(cap, "(ab)");
    assert_eq!(next, 6);
}

#[test]
fn scanner_reports_unbalanced_input() {
    assert_eq!(parse_sexp("(abc", 0), Err(ParseError::UnbalancedInput));
}

#[test]
fn instruction_keeps_inner_spaces() {
    let t = parse_tagged("(l a x y\n)").unwrap();
    assert_eq!(t.label, "l");
    assert_eq!(t.prefix, vec![leaf("a")]);
    assert_eq!(t.instructions, vec![leaf("x y")]);
}

#[test]
fn pending_buffer_flushes_at_close() {
    let t = parse_tagged("(l a b)").unwrap();
    assert_eq!(t.prefix, vec![leaf("a")]);
    assert_eq!(t.instructions, vec![leaf("b")]);
}

#[test]
fn input_without_close_drops_pending_buffer() {
    let t = parse_tagged("(l a b").unwrap();
    assert_eq!(t.label, "l");
    assert_eq!(t.prefix, vec![leaf("a")]);
    assert_eq!(t.instructions, Vec::<Node>::new());
}

#[test]
fn nested_group_precedes_pending_token() {
    let t = parse_tagged("(f a b(x) c)").unwrap();
    assert_eq!(t.prefix, vec![leaf("a"), leaf("(x)")]);
    assert_eq!(t.instructions, vec![leaf("b c")]);
}

#[test]
fn canonical_form_parses_back_to_its_tree() {
    let t = parse_tagged("(lbl arg one\ntwo\n)").unwrap();
    assert_eq!(t.label, "lbl");
    assert_eq!(t.prefix, vec![leaf("arg")]);
    assert_eq!(t.instructions, vec![leaf("one"), leaf("two")]);
}

#[test]
fn group_ahead_keeps_arguments_in_prefix() {
    let t = parse_tagged("(l a b (g) i\nj\n)").unwrap();
    assert_eq!(t.label, "l");
    assert_eq!(t.prefix, vec![leaf("a"), leaf("b"), leaf("(g)")]);
    assert_eq!(t.instructions, vec![leaf("i"), leaf("j")]);
}

#[test]
fn tab_separates_tokens() {
    let t = parse_tagged("(f\tx\ny\n)").unwrap();
    assert_eq!(t.label, "f");
    assert_eq!(t.prefix, vec![leaf("x")]);
    assert_eq!(t.instructions, vec![leaf("y")]);
}

#[test]
fn error_messages_are_descriptive() {
    assert_eq!(
        parse_tagged("x").unwrap_err().message(),
        "Expected opening parenthesis"
    );
    assert_eq!(parse_tagged("()").unwrap_err().message(), "Missing label");
    assert_eq!(
        parse_tagged("(f a (b").unwrap_err().message(),
        "Unbalanced parentheses"
    );
}

#[test]
fn instruction_is_trimmed_of_trailing_whitespace() {
    let t = parse_tagged("(l a x \ny\n)").unwrap();
    assert_eq!(t.instructions, vec![leaf("x"), leaf("y")]);
}

#[test]
fn repeated_whitespace_adds_no_empty_entries() {
    let t = parse_tagged("(l a  x\n)").unwrap();
    assert_eq!(t.prefix, vec![leaf("a")]);
    assert_eq!(t.instructions, vec![leaf("x")]);
}
