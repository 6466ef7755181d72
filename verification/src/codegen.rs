//! The code generator: a post-order walk that lowers a tree onto a stack
//! machine. Evaluating a node leaves exactly one value pushed.

use vstd::prelude::*;
use crate::listing::Instr;
use crate::cc::{Node, NodeKind};
use crate::error::GenError;

verus! {

/// The bytes reserved for the variables: 26 slots of 8 bytes.
pub const FRAME_BYTES: i32 = 208;

/// What the generator emits for a tree: the lines, and the failure that
/// ended the emission, if any. The lines emitted before a failure stay.
pub struct Emitted {
    pub code: Seq<Instr>,
    pub error: Option<GenError>,
}

/// Pushes the address of a variable: the frame base minus its offset.
/// A node that is no variable is `NotAnLvalue`; a variable without an
/// offset is `InvalidNode`. Neither emits anything.
pub open spec fn lval_code(node: Node) -> Emitted {
    if node.kind != NodeKind::NdLvar {
        Emitted { code: Seq::empty(), error: Some(GenError::NotAnLvalue) }
    } else if node.offset is None {
        Emitted { code: Seq::empty(), error: Some(GenError::InvalidNode) }
    } else {
        Emitted {
            code: seq![Instr::MovRaxRbp, Instr::SubRaxImm(node.offset->0), Instr::PushRax],
            error: None,
        }
    }
}

/// What follows the operands of a binary node: pop the right operand into
/// `rdi` and the left into `rax`, combine them, push the result. For an
/// assignment `rax` holds the address, and the stored value is pushed again.
pub open spec fn operation_code(kind: NodeKind) -> Seq<Instr> {
    match kind {
        NodeKind::NdAdd => seq![Instr::PopRdi, Instr::PopRax, Instr::Add, Instr::PushRax],
        NodeKind::NdSub => seq![Instr::PopRdi, Instr::PopRax, Instr::Sub, Instr::PushRax],
        NodeKind::NdMul => seq![Instr::PopRdi, Instr::PopRax, Instr::Imul, Instr::PushRax],
        NodeKind::NdDiv => seq![
            Instr::PopRdi,
            Instr::PopRax,
            Instr::Cqo,
            Instr::Idiv,
            Instr::PushRax,
        ],
        NodeKind::NdEq => seq![
            Instr::PopRdi,
            Instr::PopRax,
            Instr::Compare,
            Instr::SetE,
            Instr::Movzb,
            Instr::PushRax,
        ],
        NodeKind::NdNe => seq![
            Instr::PopRdi,
            Instr::PopRax,
            Instr::Compare,
            Instr::SetNe,
            Instr::Movzb,
            Instr::PushRax,
        ],
        NodeKind::NdLt => seq![
            Instr::PopRdi,
            Instr::PopRax,
            Instr::Compare,
            Instr::SetL,
            Instr::Movzb,
            Instr::PushRax,
        ],
        NodeKind::NdLe => seq![
            Instr::PopRdi,
            Instr::PopRax,
            Instr::Compare,
            Instr::SetLe,
            Instr::Movzb,
            Instr::PushRax,
        ],
        NodeKind::NdAssign => seq![Instr::PopRdi, Instr::PopRax, Instr::Store, Instr::PushRdi],
        _ => Seq::empty(),
    }
}

/// The code of a tree. A number pushes its value. A variable pushes its
/// address, then replaces it by the 8 bytes found there. A binary node
/// evaluates its left operand, then its right one, then combines them; the
/// left operand of an assignment is evaluated to its address. A number
/// without a value and a binary node without both operands are
/// `InvalidNode`.
pub open spec fn node_code(node: Node) -> Emitted
    decreases node,
{
    match node.kind {
        NodeKind::NdNum => match node.val {
            Some(v) => Emitted { code: seq![Instr::PushImm(v)], error: None },
            None => Emitted { code: Seq::empty(), error: Some(GenError::InvalidNode) },
        },
        NodeKind::NdLvar => {
            let address = lval_code(node);
            if address.error is Some {
                address
            } else {
                Emitted {
                    code: address.code + seq![Instr::PopRax, Instr::Load, Instr::PushRax],
                    error: None,
                }
            }
        },
        _ => match (node.lhs, node.rhs) {
            (Some(lhs), Some(rhs)) => {
                let left = if node.kind == NodeKind::NdAssign {
                    lval_code(*lhs)
                } else {
                    node_code(*lhs)
                };
                if left.error is Some {
                    left
                } else {
                    let right = node_code(*rhs);
                    if right.error is Some {
                        Emitted { code: left.code + right.code, error: right.error }
                    } else {
                        Emitted {
                            code: left.code + right.code + operation_code(node.kind),
                            error: None,
                        }
                    }
                }
            },
            _ => Emitted { code: Seq::empty(), error: Some(GenError::InvalidNode) },
        },
    }
}

/// The directives and the label that open every listing.
pub open spec fn header_code() -> Seq<Instr> {
    seq![Instr::IntelSyntax, Instr::GlobalMain, Instr::MainLabel]
}

/// Saves the caller's frame base, sets up the new one and reserves the
/// variables' slots.
pub open spec fn prologue_code() -> Seq<Instr> {
    seq![Instr::PushRbp, Instr::MovRbpRsp, Instr::SubRsp(FRAME_BYTES)]
}

/// Loads the value on top of the stack into the return register and returns.
pub open spec fn epilogue_code() -> Seq<Instr> {
    seq![Instr::PopRax, Instr::Ret]
}

/// The code of the statements of `code` in order. Between two statements
/// the value of the first is popped; the value of the last stays pushed.
/// `pushed` says whether a statement came before. Entries without a tree
/// emit nothing.
pub open spec fn statements_code(code: Seq<Option<Box<Node>>>, pushed: bool) -> Emitted
    decreases code.len(),
{
    if code.len() == 0 {
        Emitted { code: Seq::empty(), error: None }
    } else {
        match code[0] {
            None => statements_code(code.skip(1), pushed),
            Some(node) => {
                let discard = if pushed {
                    seq![Instr::PopRax]
                } else {
                    Seq::empty()
                };
                let first = node_code(*node);
                if first.error is Some {
                    Emitted { code: discard + first.code, error: first.error }
                } else {
                    let others = statements_code(code.skip(1), true);
                    Emitted { code: discard + first.code + others.code, error: others.error }
                }
            },
        }
    }
}

/// The listing of a program: header, prologue, the statements, epilogue.
/// A failure in a statement ends the listing there.
pub open spec fn program_code(code: Seq<Option<Box<Node>>>) -> Emitted {
    let body = statements_code(code, false);
    if body.error is Some {
        Emitted { code: header_code() + prologue_code() + body.code, error: body.error }
    } else {
        Emitted {
            code: header_code() + prologue_code() + body.code + epilogue_code(),
            error: None,
        }
    }
}

/// The listing of a single expression: header, the expression, epilogue.
/// No frame is set up.
pub open spec fn expression_code(node: Node) -> Emitted {
    let body = node_code(node);
    if body.error is Some {
        Emitted { code: header_code() + body.code, error: body.error }
    } else {
        Emitted { code: header_code() + body.code + epilogue_code(), error: None }
    }
}

/// Whether what a generator returned is what `emitted` says.
pub open spec fn reports(r: Result<(), GenError>, emitted: Emitted) -> bool {
    match r {
        Ok(()) => emitted.error is None,
        Err(e) => emitted.error == Some(e),
    }
}

/// Appends the lines of `lines` to `out`.
fn emit(out: &mut Vec<Instr>, lines: &[Instr])
    ensures
        final(out)@ == old(out)@ + lines@,
{
    let mut i: usize = 0;
    while i < lines.len()
        invariant
            i <= lines.len(),
            out@ == old(out)@ + lines@.take(i as int),
        decreases lines.len() - i,
    {
        out.push(lines[i]);
        i += 1;
        assert(out@ =~= old(out)@ + lines@.take(i as int));
    }
    assert(lines@.take(i as int) =~= lines@);
}

/// Emits the code that pushes the address of the variable `node`.
pub fn gen_lval(node: &Node, out: &mut Vec<Instr>) -> (r: Result<(), GenError>)
    ensures
        final(out)@ == old(out)@ + lval_code(*node).code,
        reports(r, lval_code(*node)),
{
    if node.kind != NodeKind::NdLvar {
        assert(out@ =~= old(out)@ + lval_code(*node).code);
        return Err(GenError::NotAnLvalue);
    }
    match node.offset {
        Some(offset) => {
            emit(out, &[Instr::MovRaxRbp, Instr::SubRaxImm(offset), Instr::PushRax]);
            Ok(())
        },
        None => {
            assert(out@ =~= old(out)@ + lval_code(*node).code);
            Err(GenError::InvalidNode)
        },
    }
}

/// Emits the lines that combine the two operands of a binary node.
fn emit_operation(kind: NodeKind, out: &mut Vec<Instr>)
    ensures
        final(out)@ == old(out)@ + operation_code(kind),
{
    match kind {
        NodeKind::NdAdd => emit(out, &[Instr::PopRdi, Instr::PopRax, Instr::Add, Instr::PushRax]),
        NodeKind::NdSub => emit(out, &[Instr::PopRdi, Instr::PopRax, Instr::Sub, Instr::PushRax]),
        NodeKind::NdMul => emit(out, &[Instr::PopRdi, Instr::PopRax, Instr::Imul, Instr::PushRax]),
        NodeKind::NdDiv => emit(
            out,
            &[Instr::PopRdi, Instr::PopRax, Instr::Cqo, Instr::Idiv, Instr::PushRax],
        ),
        NodeKind::NdEq => emit(
            out,
            &[
                Instr::PopRdi,
                Instr::PopRax,
                Instr::Compare,
                Instr::SetE,
                Instr::Movzb,
                Instr::PushRax,
            ],
        ),
        NodeKind::NdNe => emit(
            out,
            &[
                Instr::PopRdi,
                Instr::PopRax,
                Instr::Compare,
                Instr::SetNe,
                Instr::Movzb,
                Instr::PushRax,
            ],
        ),
        NodeKind::NdLt => emit(
            out,
            &[
                Instr::PopRdi,
                Instr::PopRax,
                Instr::Compare,
                Instr::SetL,
                Instr::Movzb,
                Instr::PushRax,
            ],
        ),
        NodeKind::NdLe => emit(
            out,
            &[
                Instr::PopRdi,
                Instr::PopRax,
                Instr::Compare,
                Instr::SetLe,
                Instr::Movzb,
                Instr::PushRax,
            ],
        ),
        NodeKind::NdAssign => emit(
            out,
            &[Instr::PopRdi, Instr::PopRax, Instr::Store, Instr::PushRdi],
        ),
        _ => {
            assert(out@ =~= old(out)@ + operation_code(kind));
        },
    }
}

/// Emits the code of the tree `node` behind what `out` holds. Where the
/// tree cannot be lowered, the lines emitted up to that point stay in `out`.
pub fn gen(node: &Node, out: &mut Vec<Instr>) -> (r: Result<(), GenError>)
    ensures
        final(out)@ == old(out)@ + node_code(*node).code,
        reports(r, node_code(*node)),
    decreases *node,
{
    match node.kind {
        NodeKind::NdNum => match node.val {
            Some(v) => {
                emit(out, &[Instr::PushImm(v)]);
                Ok(())
            },
            None => {
                assert(out@ =~= old(out)@ + node_code(*node).code);
                Err(GenError::InvalidNode)
            },
        },
        NodeKind::NdLvar => {
            match gen_lval(node, out) {
                Ok(()) => {},
                Err(e) => {
                    return Err(e);
                },
            }
            emit(out, &[Instr::PopRax, Instr::Load, Instr::PushRax]);
            assert(out@ =~= old(out)@ + node_code(*node).code);
            Ok(())
        },
        _ => {
            let (lhs, rhs) = match (&node.lhs, &node.rhs) {
                (Some(lhs), Some(rhs)) => (lhs, rhs),
                _ => {
                    assert(out@ =~= old(out)@ + node_code(*node).code);
                    return Err(GenError::InvalidNode);
                },
            };
            let left = if node.kind == NodeKind::NdAssign {
                gen_lval(lhs, out)
            } else {
                gen(lhs, out)
            };
            match left {
                Ok(()) => {},
                Err(e) => {
                    return Err(e);
                },
            }
            match gen(rhs, out) {
                Ok(()) => {},
                Err(e) => {
                    assert(out@ =~= old(out)@ + node_code(*node).code);
                    return Err(e);
                },
            }
            emit_operation(node.kind, out);
            assert(out@ =~= old(out)@ + node_code(*node).code);
            Ok(())
        },
    }
}

/// Emits the listing of a program: the header, the prologue, the code of
/// every statement in order and the epilogue, which returns the value of
/// the last statement. Where a statement cannot be lowered, the listing
/// ends with the lines emitted up to that point.
pub fn codegen(code: &Vec<Option<Box<Node>>>, out: &mut Vec<Instr>) -> (r: Result<(), GenError>)
    ensures
        final(out)@ == old(out)@ + program_code(code@).code,
        reports(r, program_code(code@)),
{
    emit(out, &[Instr::IntelSyntax, Instr::GlobalMain, Instr::MainLabel]);
    emit(out, &[Instr::PushRbp, Instr::MovRbpRsp, Instr::SubRsp(FRAME_BYTES)]);
    let ghost start = out@;
    let ghost mut done: Seq<Instr> = Seq::empty();
    let mut pushed = false;
    let mut i: usize = 0;
    proof {
        assert(start =~= old(out)@ + (header_code() + prologue_code()));
        assert(code@.skip(0) =~= code@);
        assert(out@ =~= start + done);
    }
    while i < code.len()
        invariant
            i <= code.len(),
            start == old(out)@ + (header_code() + prologue_code()),
            out@ == start + done,
            statements_code(code@, false).code == done + statements_code(
                code@.skip(i as int),
                pushed,
            ).code,
            statements_code(code@, false).error == statements_code(
                code@.skip(i as int),
                pushed,
            ).error,
        decreases code.len() - i,
    {
        let ghost rest = code@.skip(i as int);
        proof {
            assert(rest.skip(1) =~= code@.skip(i + 1));
            assert(rest[0] == code@[i as int]);
        }
        if let Some(node) = &code[i] {
            let ghost before = out@;
            if pushed {
                emit(out, &[Instr::PopRax]);
            }
            let ghost discard = if pushed {
                seq![Instr::PopRax]
            } else {
                Seq::<Instr>::empty()
            };
            let r = gen(node, out);
            proof {
                let first = node_code(**node);
                assert(out@ =~= start + (done + discard + first.code));
                if first.error is None {
                    let others = statements_code(rest.skip(1), true);
                    assert(statements_code(rest, pushed).code =~= discard + first.code
                        + others.code);
                    assert(done + (discard + first.code + others.code) =~= (done + discard
                        + first.code) + others.code);
                } else {
                    assert(done + (discard + first.code) =~= done + discard + first.code);
                }
                done = done + discard + first.code;
            }
            match r {
                Ok(()) => {},
                Err(e) => {
                    proof {
                        assert(done + Seq::<Instr>::empty() =~= done);
                        assert(out@ =~= old(out)@ + program_code(code@).code);
                    }
                    return Err(e);
                },
            }
            pushed = true;
        }
        i += 1;
    }
    emit(out, &[Instr::PopRax, Instr::Ret]);
    proof {
        assert(code@.skip(i as int).len() == 0);
        assert(done + Seq::<Instr>::empty() =~= done);
        assert(out@ =~= old(out)@ + program_code(code@).code);
    }
    Ok(())
}

/// Emits the listing of a single expression: the header, the code of the
/// expression and the epilogue, which returns its value. No frame is set up.
pub fn codegen_expr(node: &Node, out: &mut Vec<Instr>) -> (r: Result<(), GenError>)
    ensures
        final(out)@ == old(out)@ + expression_code(*node).code,
        reports(r, expression_code(*node)),
{
    emit(out, &[Instr::IntelSyntax, Instr::GlobalMain, Instr::MainLabel]);
    match gen(node, out) {
        Ok(()) => {},
        Err(e) => {
            assert(out@ =~= old(out)@ + expression_code(*node).code);
            return Err(e);
        },
    }
    emit(out, &[Instr::PopRax, Instr::Ret]);
    assert(out@ =~= old(out)@ + expression_code(*node).code);
    Ok(())
}

} // verus!
