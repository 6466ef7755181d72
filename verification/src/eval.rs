//! The meaning of a tree: the value it computes and what it leaves in the
//! variables. Values are 64 bits wide and wrap around; a division rounds
//! towards zero. A variable is the 8 bytes at the frame base minus its
//! offset, so variables whose offsets lie less than 8 apart share bytes.

use vstd::prelude::*;
use crate::cc::{Node, NodeKind};
use crate::machine::{Memory, load64, store64, truncated_quotient};

verus! {

/// The value of a tree, and the memory after its assignments.
pub struct Evaluated {
    pub value: i64,
    pub mem: Memory,
}

/// Truth as a number.
pub open spec fn truth(b: bool) -> i64 {
    if b {
        1
    } else {
        0
    }
}

/// The value of a binary operation on two values; `None` for a division
/// by zero and for the one quotient that does not fit 64 bits.
pub open spec fn combine(kind: NodeKind, a: i64, b: i64) -> Option<i64> {
    match kind {
        NodeKind::NdAdd => Some((a + b) as i64),
        NodeKind::NdSub => Some((a - b) as i64),
        NodeKind::NdMul => Some((a * b) as i64),
        NodeKind::NdDiv => if b == 0 || (a == i64::MIN && b == -1) {
            None
        } else {
            Some(truncated_quotient(a as int, b as int) as i64)
        },
        NodeKind::NdEq => Some(truth(a == b)),
        NodeKind::NdNe => Some(truth(a != b)),
        NodeKind::NdLt => Some(truth(a < b)),
        NodeKind::NdLe => Some(truth(a <= b)),
        _ => None,
    }
}

/// The value of `node` in the memory `mem`, with the frame base at `base`.
/// The left operand is evaluated before the right one. An assignment has
/// the value it stores. `None` where a division has no value and where the
/// tree cannot be lowered.
pub open spec fn eval(node: Node, base: int, mem: Memory) -> Option<Evaluated>
    decreases node,
{
    match node.kind {
        NodeKind::NdNum => match node.val {
            Some(v) => Some(Evaluated { value: v as i64, mem }),
            None => None,
        },
        NodeKind::NdLvar => match node.offset {
            Some(offset) => Some(Evaluated { value: load64(mem, base - offset), mem }),
            None => None,
        },
        NodeKind::NdAssign => match (node.lhs, node.rhs) {
            (Some(lhs), Some(rhs)) => if lhs.kind == NodeKind::NdLvar && lhs.offset is Some {
                match eval(*rhs, base, mem) {
                    Some(stored) => Some(
                        Evaluated {
                            value: stored.value,
                            mem: store64(stored.mem, base - lhs.offset->0, stored.value),
                        },
                    ),
                    None => None,
                }
            } else {
                None
            },
            _ => None,
        },
        _ => match (node.lhs, node.rhs) {
            (Some(lhs), Some(rhs)) => match eval(*lhs, base, mem) {
                Some(left) => match eval(*rhs, base, left.mem) {
                    Some(right) => match combine(node.kind, left.value, right.value) {
                        Some(value) => Some(Evaluated { value, mem: right.mem }),
                        None => None,
                    },
                    None => None,
                },
                None => None,
            },
            _ => None,
        },
    }
}

/// The value of the last statement, if there was one, and the memory that
/// the statements leave.
pub struct Outcome {
    pub last: Option<i64>,
    pub mem: Memory,
}

/// The value of the last of the statements `code`, evaluated in order,
/// and the memory they leave. `last` is the value of the statement
/// before, if there was one. Entries without a tree are passed over.
pub open spec fn eval_statements(
    code: Seq<Option<Box<Node>>>,
    base: int,
    mem: Memory,
    last: Option<i64>,
) -> Option<Outcome>
    decreases code.len(),
{
    if code.len() == 0 {
        Some(Outcome { last, mem })
    } else {
        match code[0] {
            None => eval_statements(code.skip(1), base, mem, last),
            Some(node) => match eval(*node, base, mem) {
                Some(e) => eval_statements(code.skip(1), base, e.mem, Some(e.value)),
                None => None,
            },
        }
    }
}

/// Whether the slot at `offset` below `base` lies at or above `top` and
/// has an address of 64 bits.
pub open spec fn slot_at_or_above(offset: i32, base: int, top: int) -> bool {
    &&& i64::MIN <= base <= i64::MAX
    &&& i64::MIN <= base - offset <= i64::MAX
    &&& top <= base - offset
}

/// Whether every variable of `node` has its slot at or above `top`.
pub open spec fn slots_at_or_above(node: Node, base: int, top: int) -> bool
    decreases node,
{
    match node.kind {
        NodeKind::NdNum => true,
        NodeKind::NdLvar => node.offset is Some ==> slot_at_or_above(node.offset->0, base, top),
        _ => match (node.lhs, node.rhs) {
            (Some(lhs), Some(rhs)) => slots_at_or_above(*lhs, base, top) && slots_at_or_above(
                *rhs,
                base,
                top,
            ),
            _ => true,
        },
    }
}

/// Whether two memories hold the same bytes at and above `top`.
pub open spec fn agree_from(a: Memory, b: Memory, top: int) -> bool {
    forall|x: int| top <= x ==> #[trigger] a[x] == b[x]
}

/// Whether two memories hold the same bytes from `low` up to `high`.
pub open spec fn agree_between(a: Memory, b: Memory, low: int, high: int) -> bool {
    forall|x: int| low <= x < high ==> #[trigger] a[x] == b[x]
}

/// A value read at or above `top` is the same in memories that agree there.
pub proof fn lemma_load_agrees(a: Memory, b: Memory, top: int, addr: int)
    requires
        agree_from(a, b, top),
        top <= addr,
    ensures
        load64(a, addr) == load64(b, addr),
{
    assert(Seq::new(8, |k: int| a[addr + k]) =~= Seq::new(8, |k: int| b[addr + k]));
}

/// A tree whose variables lie at or above `top` has the same value in
/// memories that agree there, and leaves memories that agree there.
pub proof fn lemma_eval_agrees(node: Node, base: int, a: Memory, b: Memory, top: int)
    requires
        agree_from(a, b, top),
        slots_at_or_above(node, base, top),
    ensures
        eval(node, base, a) is Some <==> eval(node, base, b) is Some,
        eval(node, base, a) is Some ==> eval(node, base, a)->0.value == eval(
            node,
            base,
            b,
        )->0.value && agree_from(eval(node, base, a)->0.mem, eval(node, base, b)->0.mem, top),
    decreases node,
{
    match node.kind {
        NodeKind::NdNum => {},
        NodeKind::NdLvar => {
            if let Some(offset) = node.offset {
                lemma_load_agrees(a, b, top, base - offset);
            }
        },
        NodeKind::NdAssign => {
            if let (Some(lhs), Some(rhs)) = (node.lhs, node.rhs) {
                if lhs.kind == NodeKind::NdLvar && lhs.offset is Some {
                    lemma_eval_agrees(*rhs, base, a, b, top);
                }
            }
        },
        _ => {
            if let (Some(lhs), Some(rhs)) = (node.lhs, node.rhs) {
                lemma_eval_agrees(*lhs, base, a, b, top);
                if let Some(left) = eval(*lhs, base, a) {
                    lemma_eval_agrees(*rhs, base, left.mem, eval(*lhs, base, b)->0.mem, top);
                }
            }
        },
    }
}

/// Whether every variable of every statement has its slot at or above `top`.
pub open spec fn all_slots_at_or_above(code: Seq<Option<Box<Node>>>, base: int, top: int) -> bool {
    forall|i: int|
        0 <= i < code.len() && (#[trigger] code[i]) is Some ==> slots_at_or_above(
            *code[i]->0,
            base,
            top,
        )
}

/// Statements whose variables lie at or above `top` have the same values
/// in memories that agree there, and leave memories that agree there.
pub proof fn lemma_eval_statements_agrees(
    code: Seq<Option<Box<Node>>>,
    base: int,
    a: Memory,
    b: Memory,
    top: int,
    last: Option<i64>,
)
    requires
        agree_from(a, b, top),
        all_slots_at_or_above(code, base, top),
    ensures
        eval_statements(code, base, a, last) is Some <==> eval_statements(code, base, b, last)
            is Some,
        eval_statements(code, base, a, last) is Some ==> eval_statements(code, base, a, last)->0.last
            == eval_statements(code, base, b, last)->0.last && agree_from(
            eval_statements(code, base, a, last)->0.mem,
            eval_statements(code, base, b, last)->0.mem,
            top,
        ),
    decreases code.len(),
{
    if code.len() > 0 {
        let rest = code.skip(1);
        assert(all_slots_at_or_above(rest, base, top)) by {
            assert forall|i: int| 0 <= i < rest.len() && (#[trigger] rest[i]) is Some implies
                slots_at_or_above(*rest[i]->0, base, top) by {
                assert(rest[i] == code[i + 1]);
            }
        }
        match code[0] {
            None => {
                lemma_eval_statements_agrees(rest, base, a, b, top, last);
            },
            Some(node) => {
                lemma_eval_agrees(*node, base, a, b, top);
                if let Some(e) = eval(*node, base, a) {
                    let f = eval(*node, base, b)->0;
                    lemma_eval_statements_agrees(rest, base, e.mem, f.mem, top, Some(e.value));
                }
            },
        }
    }
}

/// Whether `node` is built from integer literals with `+`, `-`, `*` and
/// `/` alone.
pub open spec fn is_arithmetic(node: Node) -> bool
    decreases node,
{
    match node.kind {
        NodeKind::NdNum => node.val is Some,
        NodeKind::NdAdd | NodeKind::NdSub | NodeKind::NdMul | NodeKind::NdDiv => match (
            node.lhs,
            node.rhs,
        ) {
            (Some(lhs), Some(rhs)) => is_arithmetic(*lhs) && is_arithmetic(*rhs),
            _ => false,
        },
        _ => false,
    }
}

/// The value of an arithmetic tree: the operations are carried out on 64
/// bits and wrap around, and a division rounds towards zero. `None`
/// where a division has no value.
pub open spec fn arithmetic_value(node: Node) -> Option<i64>
    decreases node,
{
    match node.kind {
        NodeKind::NdNum => match node.val {
            Some(v) => Some(v as i64),
            None => None,
        },
        _ => match (node.lhs, node.rhs) {
            (Some(lhs), Some(rhs)) => match (arithmetic_value(*lhs), arithmetic_value(*rhs)) {
                (Some(a), Some(b)) => combine(node.kind, a, b),
                _ => None,
            },
            _ => None,
        },
    }
}

/// An arithmetic tree has its value in every memory, and leaves the
/// memory as it was.
pub proof fn lemma_eval_arithmetic(node: Node, base: int, mem: Memory)
    requires
        is_arithmetic(node),
    ensures
        eval(node, base, mem) == match arithmetic_value(node) {
            Some(value) => Some(Evaluated { value, mem }),
            None => None,
        },
    decreases node,
{
    if node.kind != NodeKind::NdNum {
        lemma_eval_arithmetic(*node.lhs->0, base, mem);
        lemma_eval_arithmetic(*node.rhs->0, base, mem);
    }
}

} // verus!
