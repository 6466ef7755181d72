use chibicc::cc::{Node, NodeKind, Token, TokenKind};
use chibicc::error::ParseErrorKind;
use chibicc::parse::{
    add, assign, at_eof, consume, consume_indent, equality, expr, mul, new_binary, new_node,
    new_node_lvar, new_num, primary, program, relational, stmt, unary,
};
use chibicc::tokenize::tokenize;

fn num(val: i32) -> Box<Node> {
    Box::new(Node { kind: NodeKind::NdNum, lhs: None, rhs: None, val: Some(val), offset: None })
}

fn var(offset: i32) -> Box<Node> {
    Box::new(Node { kind: NodeKind::NdLvar, lhs: None, rhs: None, val: None, offset: Some(offset) })
}

fn bin(kind: NodeKind, lhs: Box<Node>, rhs: Box<Node>) -> Box<Node> {
    Box::new(Node { kind, lhs: Some(lhs), rhs: Some(rhs), val: None, offset: None })
}

fn parsed(source: &str) -> Box<Node> {
    let mut token = tokenize(source).unwrap();
    let node = expr(&mut token).unwrap();
    assert!(at_eof(&token));
    node
}

fn remaining(mut token: &Option<Box<Token>>) -> usize {
    let mut n = 0;
    while let Some(t) = token {
        n += 1;
        token = &t.next;
    }
    n
}

#[test]
fn builders_fill_the_right_fields() {
    assert_eq!(
        *new_node(NodeKind::NdAdd),
        Node { kind: NodeKind::NdAdd, lhs: None, rhs: None, val: None, offset: None }
    );
    assert_eq!(new_num(7), num(7));
    assert_eq!(new_num(-7), num(-7));
    assert_eq!(new_binary(NodeKind::NdMul, num(2), num(3)), bin(NodeKind::NdMul, num(2), num(3)));
}

#[test]
fn variable_offset_is_distance_from_a() {
    assert_eq!(new_node_lvar("a"), var(0));
    assert_eq!(new_node_lvar("b"), var(1));
    assert_eq!(new_node_lvar("z"), var(25));
    assert_eq!(new_node_lvar("zebra"), var(25));
    assert_eq!(new_node_lvar("A"), var(-32));
    assert_eq!(new_node_lvar("\u{e9}"), var(136));
    assert_eq!(
        *new_node_lvar(""),
        Node { kind: NodeKind::NdLvar, lhs: None, rhs: None, val: None, offset: None }
    );
}

#[test]
fn consume_steps_only_over_its_symbol() {
    let mut token = tokenize("<= 1").unwrap();
    assert!(!consume(&mut token, "<".to_string()));
    assert_eq!(remaining(&token), 3);
    assert!(!consume(&mut token, "=".to_string()));
    assert!(consume(&mut token, "<=".to_string()));
    assert_eq!(remaining(&token), 2);
    assert!(!consume(&mut token, "1".to_string()));
    assert_eq!(remaining(&token), 2);
    let mut none: Option<Box<Token>> = None;
    assert!(!consume(&mut none, "+".to_string()));
}

#[test]
fn consume_indent_hands_out_the_identifier() {
    let mut token = tokenize("x+1").unwrap();
    let ident = consume_indent(&mut token).unwrap();
    assert_eq!(ident.kind, TokenKind::TkIndent);
    assert_eq!(ident.str, "x");
    assert_eq!(ident.pos, 1);
    assert!(ident.next.is_none());
    assert_eq!(remaining(&token), 3);
    assert!(consume_indent(&mut token).is_none());
    assert_eq!(remaining(&token), 3);
    let mut none: Option<Box<Token>> = None;
    assert!(consume_indent(&mut none).is_none());
}

#[test]
fn at_eof_tells_the_end_token_from_an_exhausted_list() {
    let mut token = tokenize("1").unwrap();
    assert!(!at_eof(&token));
    assert!(consume_indent(&mut token).is_none());
    assert_eq!(primary(&mut token).ok(), Some(num(1)));
    assert!(at_eof(&token));
    let none: Option<Box<Token>> = None;
    assert!(!at_eof(&none));
}

#[test]
fn multiplication_binds_tighter_than_addition() {
    assert_eq!(
        parsed("1+2*3"),
        bin(NodeKind::NdAdd, num(1), bin(NodeKind::NdMul, num(2), num(3)))
    );
    assert_eq!(
        parsed("1*2+3"),
        bin(NodeKind::NdAdd, bin(NodeKind::NdMul, num(1), num(2)), num(3))
    );
}

#[test]
fn operators_associate_to_the_left() {
    assert_eq!(
        parsed("1-2-3"),
        bin(NodeKind::NdSub, bin(NodeKind::NdSub, num(1), num(2)), num(3))
    );
    assert_eq!(
        parsed("8/4/2"),
        bin(NodeKind::NdDiv, bin(NodeKind::NdDiv, num(8), num(4)), num(2))
    );
    assert_eq!(
        parsed("1==2!=3"),
        bin(NodeKind::NdNe, bin(NodeKind::NdEq, num(1), num(2)), num(3))
    );
    assert_eq!(
        parsed("1<2<=3"),
        bin(NodeKind::NdLe, bin(NodeKind::NdLt, num(1), num(2)), num(3))
    );
}

#[test]
fn parentheses_override_precedence() {
    assert_eq!(
        parsed("(1+2)*3"),
        bin(NodeKind::NdMul, bin(NodeKind::NdAdd, num(1), num(2)), num(3))
    );
    assert_eq!(parsed("((7))"), num(7));
}

#[test]
fn unary_minus_is_zero_minus_operand() {
    assert_eq!(parsed("-3"), bin(NodeKind::NdSub, num(0), num(3)));
    assert_eq!(
        parsed("- -3"),
        bin(NodeKind::NdSub, num(0), bin(NodeKind::NdSub, num(0), num(3)))
    );
    assert_eq!(
        parsed("2*-3"),
        bin(NodeKind::NdMul, num(2), bin(NodeKind::NdSub, num(0), num(3)))
    );
}

#[test]
fn unary_plus_is_dropped() {
    assert_eq!(parsed("+3"), num(3));
    assert_eq!(parsed("+ + a"), var(0));
    assert_eq!(parsed("1 - +2"), bin(NodeKind::NdSub, num(1), num(2)));
}

#[test]
fn greater_than_is_swapped_less_than() {
    assert_eq!(parsed("3 > 2"), bin(NodeKind::NdLt, num(2), num(3)));
    assert_eq!(parsed("3 > 2"), parsed("2 < 3"));
    assert_eq!(parsed("3 >= 2"), bin(NodeKind::NdLe, num(2), num(3)));
    assert_eq!(parsed("a+1 >= b*2"), parsed("b*2 <= a+1"));
    assert_eq!(
        parsed("1 > 2 > 3"),
        bin(NodeKind::NdLt, num(3), bin(NodeKind::NdLt, num(2), num(1)))
    );
}

#[test]
fn comparison_binds_looser_than_arithmetic() {
    assert_eq!(
        parsed("1+2 == 3*1"),
        bin(
            NodeKind::NdEq,
            bin(NodeKind::NdAdd, num(1), num(2)),
            bin(NodeKind::NdMul, num(3), num(1))
        )
    );
    assert_eq!(
        parsed("1 < 2 == 1"),
        bin(NodeKind::NdEq, bin(NodeKind::NdLt, num(1), num(2)), num(1))
    );
}

#[test]
fn assignment_associates_to_the_right() {
    let mut token = tokenize("a = b = 3;").unwrap();
    let node = stmt(&mut token).unwrap();
    assert_eq!(
        node,
        bin(NodeKind::NdAssign, var(0), bin(NodeKind::NdAssign, var(1), num(3)))
    );
    assert!(at_eof(&token));
}

#[test]
fn assignment_is_an_expression() {
    assert_eq!(
        parsed("1 + (a = 5)"),
        bin(NodeKind::NdAdd, num(1), bin(NodeKind::NdAssign, var(0), num(5)))
    );
    assert_eq!(
        parsed("z = 1 == 2"),
        bin(NodeKind::NdAssign, var(25), bin(NodeKind::NdEq, num(1), num(2)))
    );
}

#[test]
fn assignment_to_a_number_parses() {
    assert_eq!(parsed("1 = 2"), bin(NodeKind::NdAssign, num(1), num(2)));
}

#[test]
fn each_level_parses_its_own_operators_only() {
    let mut token = tokenize("1*2+3").unwrap();
    assert_eq!(mul(&mut token).ok(), Some(bin(NodeKind::NdMul, num(1), num(2))));
    assert_eq!(remaining(&token), 3);
    let mut token = tokenize("1+2<3").unwrap();
    assert_eq!(add(&mut token).ok(), Some(bin(NodeKind::NdAdd, num(1), num(2))));
    assert_eq!(remaining(&token), 3);
    let mut token = tokenize("1<2==3").unwrap();
    assert_eq!(relational(&mut token).ok(), Some(bin(NodeKind::NdLt, num(1), num(2))));
    assert_eq!(remaining(&token), 3);
    let mut token = tokenize("1==2=3").unwrap();
    assert_eq!(equality(&mut token).ok(), Some(bin(NodeKind::NdEq, num(1), num(2))));
    assert_eq!(remaining(&token), 3);
    let mut token = tokenize("a=1;2").unwrap();
    assert_eq!(assign(&mut token).ok(), Some(bin(NodeKind::NdAssign, var(0), num(1))));
    assert_eq!(remaining(&token), 3);
    let mut token = tokenize("-1*2").unwrap();
    assert_eq!(unary(&mut token).ok(), Some(bin(NodeKind::NdSub, num(0), num(1))));
    assert_eq!(remaining(&token), 3);
}

#[test]
fn unbalanced_parenthesis_fails_just_past_the_last_token() {
    let mut token = tokenize("(1 + 2").unwrap();
    let e = expr(&mut token).unwrap_err();
    assert_eq!(e.kind, ParseErrorKind::ExpectedSymbol);
    assert_eq!(e.expected, ")");
    assert_eq!(e.found, "");
    assert_eq!(e.pos, Some(7));
    let mut token = tokenize("(1 + 2").unwrap();
    assert!(program(&mut token).is_err());
}

#[test]
fn missing_semicolon() {
    let mut token = tokenize("1 + 2").unwrap();
    let e = stmt(&mut token).unwrap_err();
    assert_eq!(e.kind, ParseErrorKind::ExpectedSymbol);
    assert_eq!(e.expected, ";");
    assert_eq!(e.found, "");
    assert_eq!(e.pos, Some(6));
    let mut token = tokenize("1 2;").unwrap();
    let e = program(&mut token).unwrap_err();
    assert_eq!(e.kind, ParseErrorKind::ExpectedSymbol);
    assert_eq!(e.expected, ";");
    assert_eq!(e.found, "2");
    assert_eq!(e.pos, Some(3));
}

#[test]
fn missing_operand() {
    let mut token = tokenize("1 + ;").unwrap();
    let e = expr(&mut token).unwrap_err();
    assert_eq!(e.kind, ParseErrorKind::ExpectedNumber);
    assert_eq!(e.expected, "");
    assert_eq!(e.found, ";");
    assert_eq!(e.pos, Some(5));
    let mut token = tokenize("2 *").unwrap();
    let e = expr(&mut token).unwrap_err();
    assert_eq!(e.kind, ParseErrorKind::ExpectedNumber);
    assert_eq!(e.found, "");
    assert_eq!(e.pos, Some(4));
}

#[test]
fn exhausted_list_has_no_position() {
    let mut token: Option<Box<Token>> = None;
    let e = expr(&mut token).unwrap_err();
    assert_eq!(e.kind, ParseErrorKind::ExpectedNumber);
    assert_eq!(e.pos, None);
    let mut token: Option<Box<Token>> = None;
    assert!(program(&mut token).is_err());
}

#[test]
fn program_lists_statements_and_closes_with_none() {
    let mut token = tokenize("1; 2; 3;").unwrap();
    let code = program(&mut token).unwrap();
    assert_eq!(code, vec![Some(num(1)), Some(num(2)), Some(num(3)), None]);
    assert!(at_eof(&token));
}

#[test]
fn empty_program_is_just_the_terminator() {
    let mut token = tokenize("  ").unwrap();
    let code = program(&mut token).unwrap();
    assert_eq!(code, vec![None]);
}

#[test]
fn program_stops_at_the_first_failure() {
    let mut token = tokenize("a = 1; b = ; c = 3;").unwrap();
    let e = program(&mut token).unwrap_err();
    assert_eq!(e.kind, ParseErrorKind::ExpectedNumber);
    assert_eq!(e.found, ";");
    assert_eq!(e.pos, Some(12));
}

#[test]
fn clone_is_a_deep_copy() {
    let node = parsed("a = (1 + 2) * -b");
    let copy = node.clone();
    assert_eq!(copy, node);
}
