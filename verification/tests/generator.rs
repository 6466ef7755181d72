use chibicc::cc::{Node, NodeKind};
use chibicc::codegen::{codegen, codegen_expr, gen, gen_lval, FRAME_BYTES};
use chibicc::error::GenError;
use chibicc::listing::{assembly, Instr};
use chibicc::parse::{expr, program};
use chibicc::text::{chars_of, push_decimal};
use chibicc::tokenize::tokenize;

fn num(val: i32) -> Box<Node> {
    Box::new(Node { kind: NodeKind::NdNum, lhs: None, rhs: None, val: Some(val), offset: None })
}

fn var(offset: i32) -> Box<Node> {
    Box::new(Node { kind: NodeKind::NdLvar, lhs: None, rhs: None, val: None, offset: Some(offset) })
}

fn bin(kind: NodeKind, lhs: Box<Node>, rhs: Box<Node>) -> Box<Node> {
    Box::new(Node { kind, lhs: Some(lhs), rhs: Some(rhs), val: None, offset: None })
}

fn lines(node: &Node) -> String {
    let mut out = Vec::new();
    gen(node, &mut out).unwrap();
    assembly(&out)
}

fn expression(source: &str) -> String {
    let mut token = tokenize(source).unwrap();
    let node = expr(&mut token).unwrap();
    lines(&node)
}

fn compiled(source: &str) -> String {
    let mut token = tokenize(source).unwrap();
    let code = program(&mut token).unwrap();
    let mut out = Vec::new();
    codegen(&code, &mut out).unwrap();
    assembly(&out)
}

const PROLOGUE: &str =
    ".intel_syntax noprefix\n.globl main\nmain:\n  push rbp\n  mov rbp, rsp\n  sub rsp, 208\n";

#[test]
fn frame_holds_26_slots_of_8_bytes() {
    assert_eq!(FRAME_BYTES, 26 * 8);
}

#[test]
fn number_is_pushed() {
    assert_eq!(lines(&num(42)), "  push 42\n");
    assert_eq!(lines(&num(0)), "  push 0\n");
    assert_eq!(lines(&num(-5)), "  push -5\n");
    assert_eq!(lines(&num(i32::MAX)), "  push 2147483647\n");
    assert_eq!(lines(&num(i32::MIN)), "  push -2147483648\n");
}

#[test]
fn decimal_text() {
    let mut s = String::from("x");
    push_decimal(&mut s, 1090);
    push_decimal(&mut s, -70);
    push_decimal(&mut s, 0);
    assert_eq!(s, "x1090-700");
}

#[test]
fn characters_of_a_text() {
    assert_eq!(chars_of("a\u{e9}1"), vec!['a', '\u{e9}', '1']);
    assert_eq!(chars_of(""), Vec::<char>::new());
}

#[test]
fn arithmetic_pops_right_then_left() {
    assert_eq!(
        expression("1+2"),
        "  push 1\n  push 2\n  pop rdi\n  pop rax\n   add rax, rdi\n  push rax\n"
    );
    assert_eq!(
        expression("5-3"),
        "  push 5\n  push 3\n  pop rdi\n  pop rax\n   sub rax, rdi\n  push rax\n"
    );
    assert_eq!(
        expression("4*6"),
        "  push 4\n  push 6\n  pop rdi\n  pop rax\n   imul rax, rdi\n  push rax\n"
    );
}

#[test]
fn division_extends_the_sign_first() {
    assert_eq!(
        expression("9/2"),
        "  push 9\n  push 2\n  pop rdi\n  pop rax\n  cqo\n  idiv rdi\n  push rax\n"
    );
}

#[test]
fn comparisons_set_and_extend_a_byte() {
    assert_eq!(
        expression("1==2"),
        "  push 1\n  push 2\n  pop rdi\n  pop rax\n  cmp rax, rdi\n  sete al\n  movzb rax, al\n  push rax\n"
    );
    assert_eq!(
        expression("1!=2"),
        "  push 1\n  push 2\n  pop rdi\n  pop rax\n  cmp rax, rdi\n  setne al\n  movzb rax, al\n  push rax\n"
    );
    assert_eq!(
        expression("1<2"),
        "  push 1\n  push 2\n  pop rdi\n  pop rax\n  cmp rax, rdi\n  setl al\n  movzb rax, al\n  push rax\n"
    );
    assert_eq!(
        expression("1<=2"),
        "  push 1\n  push 2\n  pop rdi\n  pop rax\n  cmp rax, rdi\n  setle al\n  movzb rax, al\n  push rax\n"
    );
}

#[test]
fn greater_than_and_swapped_less_than_give_the_same_code() {
    assert_eq!(expression("3 > 2"), expression("2 < 3"));
    assert_eq!(
        expression("3 > 2"),
        "  push 2\n  push 3\n  pop rdi\n  pop rax\n  cmp rax, rdi\n  setl al\n  movzb rax, al\n  push rax\n"
    );
    assert_eq!(expression("3 >= 2"), expression("2 <= 3"));
    assert_eq!(compiled("3 > 2;"), compiled("2 < 3;"));
}

#[test]
fn operands_are_evaluated_left_to_right() {
    assert_eq!(
        expression("1+2*3"),
        "  push 1\n  push 2\n  push 3\n  pop rdi\n  pop rax\n   imul rax, rdi\n  push rax\n  pop rdi\n  pop rax\n   add rax, rdi\n  push rax\n"
    );
}

#[test]
fn variable_is_loaded_from_its_slot() {
    assert_eq!(
        lines(&var(0)),
        "  mov rax, rbp\n  sub rax, 0\n  push rax\n  pop rax\n  mov rax, [rax]\n  push rax\n"
    );
    assert_eq!(
        expression("z"),
        "  mov rax, rbp\n  sub rax, 25\n  push rax\n  pop rax\n  mov rax, [rax]\n  push rax\n"
    );
    assert_eq!(
        lines(&var(-32)),
        "  mov rax, rbp\n  sub rax, -32\n  push rax\n  pop rax\n  mov rax, [rax]\n  push rax\n"
    );
}

#[test]
fn lvalue_pushes_the_address_only() {
    let mut out = Vec::new();
    assert_eq!(gen_lval(&var(3), &mut out), Ok(()));
    assert_eq!(out, vec![Instr::MovRaxRbp, Instr::SubRaxImm(3), Instr::PushRax]);
    assert_eq!(assembly(&out), "  mov rax, rbp\n  sub rax, 3\n  push rax\n");
}

#[test]
fn lvalue_of_a_number_is_refused() {
    let mut out = vec![Instr::Ret];
    assert_eq!(gen_lval(&num(1), &mut out), Err(GenError::NotAnLvalue));
    assert_eq!(out, vec![Instr::Ret]);
    let bare = Node { kind: NodeKind::NdLvar, lhs: None, rhs: None, val: None, offset: None };
    assert_eq!(gen_lval(&bare, &mut out), Err(GenError::InvalidNode));
    assert_eq!(out, vec![Instr::Ret]);
}

#[test]
fn assignment_stores_and_pushes_the_value_again() {
    assert_eq!(
        expression("a = 5"),
        "  mov rax, rbp\n  sub rax, 0\n  push rax\n  push 5\n  pop rdi\n  pop rax\n  mov [rax], rdi\n  push rdi\n"
    );
}

#[test]
fn chained_assignment_stores_through_both_addresses() {
    assert_eq!(
        compiled("a = b = 3;"),
        format!(
            "{}{}",
            PROLOGUE,
            "  mov rax, rbp\n  sub rax, 0\n  push rax\n  mov rax, rbp\n  sub rax, 1\n  push rax\n  push 3\n  pop rdi\n  pop rax\n  mov [rax], rdi\n  push rdi\n  pop rdi\n  pop rax\n  mov [rax], rdi\n  push rdi\n  pop rax\n  ret\n"
        )
    );
}

#[test]
fn assignment_inside_an_expression() {
    assert_eq!(
        expression("1 + (a = 5)"),
        "  push 1\n  mov rax, rbp\n  sub rax, 0\n  push rax\n  push 5\n  pop rdi\n  pop rax\n  mov [rax], rdi\n  push rdi\n  pop rdi\n  pop rax\n   add rax, rdi\n  push rax\n"
    );
}

#[test]
fn assignment_to_a_number_is_a_generation_error() {
    let mut token = tokenize("1; 2 = 3; 4;").unwrap();
    let code = program(&mut token).unwrap();
    let mut out = Vec::new();
    assert_eq!(codegen(&code, &mut out), Err(GenError::NotAnLvalue));
    assert_eq!(assembly(&out), format!("{}{}", PROLOGUE, "  push 1\n  pop rax\n"));
}

#[test]
fn output_before_a_failure_stays() {
    let broken = bin(
        NodeKind::NdAdd,
        num(1),
        bin(NodeKind::NdAssign, bin(NodeKind::NdMul, var(0), num(2)), num(3)),
    );
    let mut out = Vec::new();
    assert_eq!(gen(&broken, &mut out), Err(GenError::NotAnLvalue));
    assert_eq!(out, vec![Instr::PushImm(1)]);
}

#[test]
fn nodes_that_lack_a_part_are_invalid() {
    let no_value = Node { kind: NodeKind::NdNum, lhs: None, rhs: None, val: None, offset: None };
    let no_offset = Node { kind: NodeKind::NdLvar, lhs: None, rhs: None, val: None, offset: None };
    let no_rhs = Node { kind: NodeKind::NdAdd, lhs: Some(num(1)), rhs: None, val: None, offset: None };
    let no_lhs = Node { kind: NodeKind::NdAssign, lhs: None, rhs: Some(num(1)), val: None, offset: None };
    for node in [no_value, no_offset, no_rhs, no_lhs] {
        let mut out = Vec::new();
        assert_eq!(gen(&node, &mut out), Err(GenError::InvalidNode));
        assert!(out.is_empty());
    }
    let deep = bin(
        NodeKind::NdSub,
        num(9),
        Box::new(Node { kind: NodeKind::NdNum, lhs: None, rhs: None, val: None, offset: None }),
    );
    let mut out = Vec::new();
    assert_eq!(gen(&deep, &mut out), Err(GenError::InvalidNode));
    assert_eq!(out, vec![Instr::PushImm(9)]);
}

#[test]
fn program_returns_the_last_statement() {
    assert_eq!(
        compiled("1; 2; 3;"),
        format!("{}{}", PROLOGUE, "  push 1\n  pop rax\n  push 2\n  pop rax\n  push 3\n  pop rax\n  ret\n")
    );
}

#[test]
fn program_of_one_statement() {
    assert_eq!(compiled("42;"), format!("{}{}", PROLOGUE, "  push 42\n  pop rax\n  ret\n"));
}

#[test]
fn empty_program() {
    assert_eq!(compiled(""), format!("{}{}", PROLOGUE, "  pop rax\n  ret\n"));
}

#[test]
fn entries_without_a_tree_are_passed_over() {
    let code = vec![None, Some(num(1)), None, Some(num(2)), None];
    let mut out = Vec::new();
    assert_eq!(codegen(&code, &mut out), Ok(()));
    assert_eq!(
        assembly(&out),
        format!("{}{}", PROLOGUE, "  push 1\n  pop rax\n  push 2\n  pop rax\n  ret\n")
    );
}

#[test]
fn listing_is_appended_to_what_is_there() {
    let mut out = vec![Instr::Cqo];
    assert_eq!(gen(&num(1), &mut out), Ok(()));
    assert_eq!(out, vec![Instr::Cqo, Instr::PushImm(1)]);
}

#[test]
fn single_expression_has_no_frame() {
    let mut token = tokenize("1+2").unwrap();
    let node = expr(&mut token).unwrap();
    let mut out = Vec::new();
    assert_eq!(codegen_expr(&node, &mut out), Ok(()));
    assert_eq!(
        assembly(&out),
        ".intel_syntax noprefix\n.globl main\nmain:\n  push 1\n  push 2\n  pop rdi\n  pop rax\n   add rax, rdi\n  push rax\n  pop rax\n  ret\n"
    );
    let mut out = Vec::new();
    assert_eq!(codegen_expr(&bin(NodeKind::NdAssign, num(1), num(2)), &mut out), Err(GenError::NotAnLvalue));
    assert_eq!(assembly(&out), ".intel_syntax noprefix\n.globl main\nmain:\n");
}

#[test]
fn reading_an_unassigned_variable_generates_code() {
    assert_eq!(
        compiled("q;"),
        format!(
            "{}{}",
            PROLOGUE,
            "  mov rax, rbp\n  sub rax, 16\n  push rax\n  pop rax\n  mov rax, [rax]\n  push rax\n  pop rax\n  ret\n"
        )
    );
}

#[test]
fn every_line_has_its_text() {
    let all = vec![
        (Instr::IntelSyntax, ".intel_syntax noprefix"),
        (Instr::GlobalMain, ".globl main"),
        (Instr::MainLabel, "main:"),
        (Instr::PushRbp, "  push rbp"),
        (Instr::MovRbpRsp, "  mov rbp, rsp"),
        (Instr::SubRsp(208), "  sub rsp, 208"),
        (Instr::PushImm(-1), "  push -1"),
        (Instr::PushRax, "  push rax"),
        (Instr::PushRdi, "  push rdi"),
        (Instr::PopRax, "  pop rax"),
        (Instr::PopRdi, "  pop rdi"),
        (Instr::MovRaxRbp, "  mov rax, rbp"),
        (Instr::SubRaxImm(7), "  sub rax, 7"),
        (Instr::Load, "  mov rax, [rax]"),
        (Instr::Store, "  mov [rax], rdi"),
        (Instr::Add, "   add rax, rdi"),
        (Instr::Sub, "   sub rax, rdi"),
        (Instr::Imul, "   imul rax, rdi"),
        (Instr::Cqo, "  cqo"),
        (Instr::Idiv, "  idiv rdi"),
        (Instr::Compare, "  cmp rax, rdi"),
        (Instr::SetE, "  sete al"),
        (Instr::SetNe, "  setne al"),
        (Instr::SetL, "  setl al"),
        (Instr::SetLe, "  setle al"),
        (Instr::Movzb, "  movzb rax, al"),
        (Instr::Ret, "  ret"),
    ];
    for (instr, text) in all {
        assert_eq!(instr.to_text(), text);
    }
    assert_eq!(assembly(&Vec::new()), "");
}
