//! What the generated code does on the machine: it computes the value of
//! the tree it was generated from.

use vstd::prelude::*;
use vstd::arithmetic::div_mod::{
    lemma_div_is_ordered_by_denominator, lemma_div_nonincreasing, lemma_div_pos_is_pos,
};
use crate::cc::{Node, NodeKind, lvar_node};
use crate::codegen::{
    FRAME_BYTES, epilogue_code, expression_code, header_code, lval_code, node_code,
    operation_code, program_code, prologue_code, statements_code,
};
use crate::eval::{
    Evaluated, agree_between, agree_from, all_slots_at_or_above, arithmetic_value, combine, eval,
    eval_statements, is_arithmetic, lemma_eval_agrees, lemma_eval_arithmetic,
    lemma_eval_statements_agrees, lemma_load_agrees, slot_at_or_above, slots_at_or_above, truth,
};
use crate::error::GenError;
use crate::listing::Instr;
use crate::machine::{
    Machine, Memory, lemma_load_after_store, lemma_load_apart_from_store, lemma_low_byte_of_set,
    lemma_run_concat, lemma_sign_extended_dividend, load64, pushed, run, step, store64,
    truncated_quotient, with_low_byte,
};

verus! {

/// One more line after a run that may have faulted.
pub open spec fn then(before: Option<Machine>, instr: Instr) -> Option<Machine> {
    match before {
        Some(s) => step(instr, s),
        None => None,
    }
}

/// Running a listing with one more line is running the listing, then the line.
pub proof fn lemma_run_push(code: Seq<Instr>, instr: Instr, s: Machine)
    ensures
        run(code.push(instr), s) == then(run(code, s), instr),
{
    lemma_run_concat(code, seq![instr], s);
    assert(code + seq![instr] =~= code.push(instr));
    assert(seq![instr].skip(1) =~= Seq::<Instr>::empty());
    if let Some(middle) = run(code, s) {
        assert(run(seq![instr], middle) == then(Some(middle), instr)) by {
            reveal_with_fuel(run, 2);
        }
    }
}

/// A listing of three lines runs them one after the other.
proof fn lemma_run_3(a: Instr, b: Instr, c: Instr, s: Machine)
    ensures
        run(seq![a, b, c], s) == then(then(step(a, s), b), c),
{
    let e = Seq::<Instr>::empty();
    lemma_run_push(e, a, s);
    lemma_run_push(e.push(a), b, s);
    lemma_run_push(e.push(a).push(b), c, s);
    assert(seq![a, b, c] =~= e.push(a).push(b).push(c));
}

/// A listing of four lines runs them one after the other.
proof fn lemma_run_4(a: Instr, b: Instr, c: Instr, d: Instr, s: Machine)
    ensures
        run(seq![a, b, c, d], s) == then(then(then(step(a, s), b), c), d),
{
    let e = Seq::<Instr>::empty();
    lemma_run_push(e, a, s);
    lemma_run_push(e.push(a), b, s);
    lemma_run_push(e.push(a).push(b), c, s);
    lemma_run_push(e.push(a).push(b).push(c), d, s);
    assert(seq![a, b, c, d] =~= e.push(a).push(b).push(c).push(d));
}

/// A listing of five lines runs them one after the other.
proof fn lemma_run_5(a: Instr, b: Instr, c: Instr, d: Instr, f: Instr, s: Machine)
    ensures
        run(seq![a, b, c, d, f], s) == then(then(then(then(step(a, s), b), c), d), f),
{
    let e = Seq::<Instr>::empty();
    lemma_run_push(e, a, s);
    lemma_run_push(e.push(a), b, s);
    lemma_run_push(e.push(a).push(b), c, s);
    lemma_run_push(e.push(a).push(b).push(c), d, s);
    lemma_run_push(e.push(a).push(b).push(c).push(d), f, s);
    assert(seq![a, b, c, d, f] =~= e.push(a).push(b).push(c).push(d).push(f));
}

/// A listing of six lines runs them one after the other.
proof fn lemma_run_6(a: Instr, b: Instr, c: Instr, d: Instr, f: Instr, g: Instr, s: Machine)
    ensures
        run(seq![a, b, c, d, f, g], s) == then(
            then(then(then(then(step(a, s), b), c), d), f),
            g,
        ),
{
    let e = Seq::<Instr>::empty();
    lemma_run_push(e, a, s);
    lemma_run_push(e.push(a), b, s);
    lemma_run_push(e.push(a).push(b), c, s);
    lemma_run_push(e.push(a).push(b).push(c), d, s);
    lemma_run_push(e.push(a).push(b).push(c).push(d), f, s);
    lemma_run_push(e.push(a).push(b).push(c).push(d).push(f), g, s);
    assert(seq![a, b, c, d, f, g] =~= e.push(a).push(b).push(c).push(d).push(f).push(g));
}

/// A quotient that rounds towards zero fits 64 bits, but for the lowest
/// value divided by -1.
pub proof fn lemma_quotient_fits(a: i64, b: i64)
    requires
        b != 0,
        !(a == i64::MIN && b == -1),
    ensures
        i64::MIN <= truncated_quotient(a as int, b as int) <= i64::MAX,
{
    let x: int = if a >= 0 {
        a as int
    } else {
        -(a as int)
    };
    let y: int = if b > 0 {
        b as int
    } else {
        -(b as int)
    };
    lemma_div_nonincreasing(x, y);
    lemma_div_pos_is_pos(x, y);
    if a == i64::MIN && b < 0 {
        lemma_div_is_ordered_by_denominator(x, 2, y);
    }
}

/// Whether `t` is `s` with the two values on top of the stack replaced by
/// `value`.
pub open spec fn replaces_two(s: Machine, t: Machine, value: i64) -> bool {
    &&& t.rsp == s.rsp + 8
    &&& t.rbp == s.rbp
    &&& t.returned is None
    &&& t.mem == store64(s.mem, s.rsp + 8, value)
}

/// The state after the right operand was popped into `rdi` and the left
/// one into `rax`.
pub open spec fn operands_popped(s: Machine) -> Machine {
    Machine {
        rdi: load64(s.mem, s.rsp),
        rax: load64(s.mem, s.rsp + 8),
        rsp: s.rsp + 16,
        ..s
    }
}

/// The two pops that open every operation take the right operand first.
proof fn lemma_pops(s: Machine)
    requires
        s.returned is None,
    ensures
        then(step(Instr::PopRdi, s), Instr::PopRax) == Some(operands_popped(s)),
{
    let s1 = Machine { rdi: load64(s.mem, s.rsp), rsp: s.rsp + 8, ..s };
    assert(step(Instr::PopRdi, s) == Some(s1));
    assert(step(Instr::PopRax, s1) == Some(operands_popped(s)));
}

/// `add`, `sub` and `imul` between the pops and the push compute the sum,
/// the difference and the product of the operands, cut to 64 bits.
proof fn lemma_arithmetic_runs(kind: NodeKind, instr: Instr, s: Machine)
    requires
        s.returned is None,
        (kind == NodeKind::NdAdd && instr == Instr::Add) || (kind == NodeKind::NdSub && instr
            == Instr::Sub) || (kind == NodeKind::NdMul && instr == Instr::Imul),
    ensures
        run(seq![Instr::PopRdi, Instr::PopRax, instr, Instr::PushRax], s) is Some,
        replaces_two(
            s,
            run(seq![Instr::PopRdi, Instr::PopRax, instr, Instr::PushRax], s)->0,
            combine(kind, load64(s.mem, s.rsp + 8), load64(s.mem, s.rsp))->0,
        ),
{
    lemma_run_4(Instr::PopRdi, Instr::PopRax, instr, Instr::PushRax, s);
    lemma_pops(s);
    let s2 = operands_popped(s);
    let value = combine(kind, s2.rax, s2.rdi)->0;
    let s3 = Machine { rax: value, flags: None, ..s2 };
    assert(step(instr, s2) == Some(s3));
    assert(step(Instr::PushRax, s3) == Some(pushed(s3, value)));
}

/// `cqo` and `idiv` between the pops and the push compute the quotient of
/// the operands, rounded towards zero.
proof fn lemma_division_runs(s: Machine)
    requires
        s.returned is None,
        combine(NodeKind::NdDiv, load64(s.mem, s.rsp + 8), load64(s.mem, s.rsp)) is Some,
    ensures
        run(operation_code(NodeKind::NdDiv), s) is Some,
        replaces_two(
            s,
            run(operation_code(NodeKind::NdDiv), s)->0,
            combine(NodeKind::NdDiv, load64(s.mem, s.rsp + 8), load64(s.mem, s.rsp))->0,
        ),
{
    lemma_run_5(Instr::PopRdi, Instr::PopRax, Instr::Cqo, Instr::Idiv, Instr::PushRax, s);
    lemma_pops(s);
    let s2 = operands_popped(s);
    let a = s2.rax;
    let b = s2.rdi;
    let sign: i64 = if a < 0 {
        -1i64
    } else {
        0i64
    };
    let s3 = Machine { rdx: sign, ..s2 };
    assert(step(Instr::Cqo, s2) == Some(s3));
    lemma_sign_extended_dividend(a);
    lemma_quotient_fits(a, b);
    let quotient = truncated_quotient(a as int, b as int);
    let s4 = Machine {
        rax: quotient as i64,
        rdx: (a - quotient * b) as i64,
        flags: None,
        ..s3
    };
    assert(step(Instr::Idiv, s3) == Some(s4));
    assert(step(Instr::PushRax, s4) == Some(pushed(s4, quotient as i64)));
}

/// Whether `instr` is the `set` instruction that tells whether `a`
/// stands in the relation `holds` to `b`.
pub open spec fn sets(instr: Instr, holds: bool, a: i64, b: i64) -> bool {
    ||| instr == Instr::SetE && holds == (a == b)
    ||| instr == Instr::SetNe && holds == (a != b)
    ||| instr == Instr::SetL && holds == (a < b)
    ||| instr == Instr::SetLe && holds == (a <= b)
}

/// A `set` instruction behind a comparison writes the answer to the
/// lowest byte of `rax`.
proof fn lemma_set_steps(instr: Instr, holds: bool, s: Machine, a: i64, b: i64)
    requires
        s.returned is None,
        s.flags == Some((a, b)),
        sets(instr, holds, a, b),
    ensures
        step(instr, s) == Some(Machine { rax: with_low_byte(s.rax, holds), ..s }),
{
}

/// `cmp`, a `set` instruction, `movzb` and the push leave 1 or 0 pushed.
proof fn lemma_compared_runs(instr: Instr, holds: bool, s: Machine)
    requires
        s.returned is None,
        sets(instr, holds, s.rax, s.rdi),
    ensures
        then(then(then(step(Instr::Compare, s), instr), Instr::Movzb), Instr::PushRax) == Some(
            pushed(Machine { rax: truth(holds), flags: Some((s.rax, s.rdi)), ..s }, truth(holds)),
        ),
{
    let s3 = Machine { flags: Some((s.rax, s.rdi)), ..s };
    assert(step(Instr::Compare, s) == Some(s3));
    let s4 = Machine { rax: with_low_byte(s.rax, holds), ..s3 };
    lemma_set_steps(instr, holds, s3, s.rax, s.rdi);
    lemma_low_byte_of_set(s.rax, holds);
    let s5 = Machine { rax: truth(holds), ..s4 };
    assert(step(Instr::Movzb, s4) == Some(s5));
    assert(step(Instr::PushRax, s5) == Some(pushed(s5, truth(holds))));
}

/// The lines of a comparison pop both operands and push 1 where the
/// relation holds and 0 where it does not.
proof fn lemma_comparison_runs(instr: Instr, holds: bool, s: Machine)
    requires
        s.returned is None,
        sets(instr, holds, load64(s.mem, s.rsp + 8), load64(s.mem, s.rsp)),
    ensures
        run(
            seq![
                Instr::PopRdi,
                Instr::PopRax,
                Instr::Compare,
                instr,
                Instr::Movzb,
                Instr::PushRax,
            ],
            s,
        ) is Some,
        replaces_two(
            s,
            run(
                seq![
                    Instr::PopRdi,
                    Instr::PopRax,
                    Instr::Compare,
                    instr,
                    Instr::Movzb,
                    Instr::PushRax,
                ],
                s,
            )->0,
            truth(holds),
        ),
{
    lemma_run_6(
        Instr::PopRdi,
        Instr::PopRax,
        Instr::Compare,
        instr,
        Instr::Movzb,
        Instr::PushRax,
        s,
    );
    lemma_pops(s);
    lemma_compared_runs(instr, holds, operands_popped(s));
}

/// The lines behind the operands of an arithmetic or comparison node pop
/// both operands and push the value of the operation.
pub proof fn lemma_operation_runs(kind: NodeKind, s: Machine)
    requires
        s.returned is None,
        kind.is_binary(),
        kind != NodeKind::NdAssign,
        combine(kind, load64(s.mem, s.rsp + 8), load64(s.mem, s.rsp)) is Some,
    ensures
        run(operation_code(kind), s) is Some,
        replaces_two(
            s,
            run(operation_code(kind), s)->0,
            combine(kind, load64(s.mem, s.rsp + 8), load64(s.mem, s.rsp))->0,
        ),
{
    let a = load64(s.mem, s.rsp + 8);
    let b = load64(s.mem, s.rsp);
    match kind {
        NodeKind::NdAdd => lemma_arithmetic_runs(kind, Instr::Add, s),
        NodeKind::NdSub => lemma_arithmetic_runs(kind, Instr::Sub, s),
        NodeKind::NdMul => lemma_arithmetic_runs(kind, Instr::Imul, s),
        NodeKind::NdDiv => lemma_division_runs(s),
        NodeKind::NdEq => lemma_comparison_runs(Instr::SetE, a == b, s),
        NodeKind::NdNe => lemma_comparison_runs(Instr::SetNe, a != b, s),
        NodeKind::NdLt => lemma_comparison_runs(Instr::SetL, a < b, s),
        NodeKind::NdLe => lemma_comparison_runs(Instr::SetLe, a <= b, s),
        _ => {},
    }
}

/// The lines behind the operands of an assignment pop the value and the
/// address, store the value at the address and push it again.
pub proof fn lemma_store_runs(s: Machine)
    requires
        s.returned is None,
    ensures
        run(operation_code(NodeKind::NdAssign), s) is Some,
        ({
            let t = run(operation_code(NodeKind::NdAssign), s)->0;
            let value = load64(s.mem, s.rsp);
            let addr = load64(s.mem, s.rsp + 8);
            &&& t.rsp == s.rsp + 8
            &&& t.rbp == s.rbp
            &&& t.returned is None
            &&& t.mem == store64(store64(s.mem, addr as int, value), s.rsp + 8, value)
        }),
{
    lemma_run_4(Instr::PopRdi, Instr::PopRax, Instr::Store, Instr::PushRdi, s);
    lemma_pops(s);
    let s2 = operands_popped(s);
    let s3 = Machine { mem: store64(s2.mem, s2.rax as int, s2.rdi), ..s2 };
    assert(step(Instr::Store, s2) == Some(s3));
    assert(step(Instr::PushRdi, s3) == Some(pushed(s3, s3.rdi)));
}

/// The lines of an lvalue push the address of the slot.
pub proof fn lemma_lval_runs(node: Node, s: Machine, top: int)
    requires
        s.returned is None,
        lval_code(node).error is None,
        slots_at_or_above(node, s.rbp, top),
    ensures
        run(lval_code(node).code, s) is Some,
        ({
            let t = run(lval_code(node).code, s)->0;
            &&& t.rsp == s.rsp - 8
            &&& t.rbp == s.rbp
            &&& t.returned is None
            &&& t.mem == store64(s.mem, s.rsp - 8, (s.rbp - node.offset->0) as i64)
        }),
        slot_at_or_above(node.offset->0, s.rbp, top),
{
    let offset = node.offset->0;
    lemma_run_3(Instr::MovRaxRbp, Instr::SubRaxImm(offset), Instr::PushRax, s);
    let s1 = Machine { rax: s.rbp as i64, ..s };
    assert(step(Instr::MovRaxRbp, s) == Some(s1));
    let s2 = Machine { rax: (s.rbp - offset) as i64, flags: None, ..s1 };
    assert(step(Instr::SubRaxImm(offset), s1) == Some(s2));
    assert(step(Instr::PushRax, s2) == Some(pushed(s2, s2.rax)));
}

/// A value read between `low` and `high` is the same in memories that
/// agree there.
pub proof fn lemma_load_agrees_between(a: Memory, b: Memory, low: int, high: int, addr: int)
    requires
        agree_between(a, b, low, high),
        low <= addr,
        addr + 8 <= high,
    ensures
        load64(a, addr) == load64(b, addr),
{
    assert(Seq::new(8, |k: int| a[addr + k]) =~= Seq::new(8, |k: int| b[addr + k]));
}

/// Whether `t` is what the code of a tree with the value and memory `e`
/// leaves of `s`: the value is pushed, the stack below it is as it was, and
/// from `top` on the memory is that of `e`.
pub open spec fn computes(s: Machine, t: Machine, e: Evaluated, top: int) -> bool {
    &&& t.rsp == s.rsp - 8
    &&& t.rbp == s.rbp
    &&& t.returned is None
    &&& load64(t.mem, t.rsp) == e.value
    &&& agree_between(t.mem, s.mem, s.rsp, top)
    &&& agree_from(t.mem, e.mem, top)
}

/// The code of a number computes the number.
proof fn lemma_number_computes(node: Node, s: Machine, top: int)
    requires
        node.kind == NodeKind::NdNum,
        node.val is Some,
        s.returned is None,
        s.rsp <= top,
    ensures
        run(node_code(node).code, s) is Some,
        computes(s, run(node_code(node).code, s)->0, eval(node, s.rbp, s.mem)->0, top),
{
    let v = node.val->0;
    lemma_run_push(Seq::<Instr>::empty(), Instr::PushImm(v), s);
    assert(seq![Instr::PushImm(v)] =~= Seq::<Instr>::empty().push(Instr::PushImm(v)));
    assert(step(Instr::PushImm(v), s) == Some(pushed(s, v as i64)));
    lemma_load_after_store(s.mem, s.rsp - 8, v as i64);
}

/// The code of a variable computes what its slot holds.
proof fn lemma_variable_computes(node: Node, s: Machine, top: int)
    requires
        node.kind == NodeKind::NdLvar,
        node.offset is Some,
        s.returned is None,
        s.rsp <= top,
        slots_at_or_above(node, s.rbp, top),
    ensures
        run(node_code(node).code, s) is Some,
        computes(s, run(node_code(node).code, s)->0, eval(node, s.rbp, s.mem)->0, top),
{
    let addr = s.rbp - node.offset->0;
    let fetch = seq![Instr::PopRax, Instr::Load, Instr::PushRax];
    lemma_lval_runs(node, s, top);
    lemma_run_concat(lval_code(node).code, fetch, s);
    let t1 = run(lval_code(node).code, s)->0;
    lemma_run_3(Instr::PopRax, Instr::Load, Instr::PushRax, t1);
    lemma_load_after_store(s.mem, s.rsp - 8, addr as i64);
    let t2 = Machine { rax: addr as i64, rsp: s.rsp, ..t1 };
    assert(step(Instr::PopRax, t1) == Some(t2));
    lemma_load_apart_from_store(s.mem, s.rsp - 8, addr as i64, addr);
    let value = load64(s.mem, addr);
    let t3 = Machine { rax: value, ..t2 };
    assert(step(Instr::Load, t2) == Some(t3));
    assert(step(Instr::PushRax, t3) == Some(pushed(t3, value)));
    lemma_load_after_store(t3.mem, s.rsp - 8, value);
}

/// The code of an assignment computes the value of the right side and
/// stores it in the slot of the left side.
proof fn lemma_assignment_computes(node: Node, s: Machine, top: int)
    requires
        node.kind == NodeKind::NdAssign,
        node_code(node).error is None,
        s.returned is None,
        s.rsp <= top,
        slots_at_or_above(node, s.rbp, top),
        eval(node, s.rbp, s.mem) is Some,
    ensures
        run(node_code(node).code, s) is Some,
        computes(s, run(node_code(node).code, s)->0, eval(node, s.rbp, s.mem)->0, top),
    decreases node, 0nat,
{
    let lhs = *node.lhs->0;
    let rhs = *node.rhs->0;
    let addr = s.rbp - lhs.offset->0;
    let left = lval_code(lhs).code;
    let right = node_code(rhs).code;
    let store = operation_code(NodeKind::NdAssign);
    lemma_lval_runs(lhs, s, top);
    let t1 = run(left, s)->0;
    lemma_load_after_store(s.mem, s.rsp - 8, addr as i64);
    assert(agree_from(t1.mem, s.mem, top));
    lemma_eval_agrees(rhs, s.rbp, t1.mem, s.mem, top);
    lemma_gen_computes(rhs, t1, top);
    let t2 = run(right, t1)->0;
    let stored = eval(rhs, s.rbp, s.mem)->0;
    let direct = eval(rhs, s.rbp, t1.mem)->0;
    lemma_load_agrees_between(t2.mem, t1.mem, t1.rsp, top, s.rsp - 8);
    assert(load64(t2.mem, t2.rsp + 8) == addr as i64);
    assert((addr as i64) as int == addr);
    assert(load64(t2.mem, t2.rsp) == stored.value);
    lemma_store_runs(t2);
    let t3 = run(store, t2)->0;
    lemma_run_concat(left, right, s);
    lemma_run_concat(left + right, store, s);
    assert(run(node_code(node).code, s) == Some(t3));
    let written = store64(t2.mem, addr, stored.value);
    lemma_load_after_store(written, s.rsp - 8, stored.value);
    let e = eval(node, s.rbp, s.mem)->0;
    assert(e.mem == store64(stored.mem, addr, stored.value));
    assert(t3.mem == store64(written, s.rsp - 8, stored.value));
    assert(agree_between(t3.mem, s.mem, s.rsp, top)) by {
        assert forall|x: int| s.rsp <= x < top implies #[trigger] t3.mem[x] == s.mem[x] by {
            assert(t3.mem[x] == written[x]);
            assert(written[x] == t2.mem[x]);
            assert(t2.mem[x] == t1.mem[x]);
        }
    }
    assert(agree_from(t3.mem, e.mem, top)) by {
        assert forall|x: int| top <= x implies #[trigger] t3.mem[x] == e.mem[x] by {
            assert(t3.mem[x] == written[x]);
            if !(addr <= x < addr + 8) {
                assert(written[x] == t2.mem[x]);
                assert(t2.mem[x] == direct.mem[x]);
                assert(direct.mem[x] == stored.mem[x]);
            }
        }
    }
}

/// The code of an arithmetic or comparison node computes the operation
/// on the values of its operands.
proof fn lemma_binary_computes(node: Node, s: Machine, top: int)
    requires
        node.kind.is_binary(),
        node.kind != NodeKind::NdAssign,
        node_code(node).error is None,
        s.returned is None,
        s.rsp <= top,
        slots_at_or_above(node, s.rbp, top),
        eval(node, s.rbp, s.mem) is Some,
    ensures
        run(node_code(node).code, s) is Some,
        computes(s, run(node_code(node).code, s)->0, eval(node, s.rbp, s.mem)->0, top),
    decreases node, 0nat,
{
    let lhs = *node.lhs->0;
    let rhs = *node.rhs->0;
    let left = node_code(lhs).code;
    let right = node_code(rhs).code;
    let operation = operation_code(node.kind);
    lemma_gen_computes(lhs, s, top);
    let t1 = run(left, s)->0;
    let e1 = eval(lhs, s.rbp, s.mem)->0;
    lemma_eval_agrees(rhs, s.rbp, t1.mem, e1.mem, top);
    lemma_gen_computes(rhs, t1, top);
    let t2 = run(right, t1)->0;
    let e2 = eval(rhs, s.rbp, e1.mem)->0;
    let direct = eval(rhs, s.rbp, t1.mem)->0;
    lemma_load_agrees_between(t2.mem, t1.mem, t1.rsp, top, s.rsp - 8);
    assert(load64(t2.mem, t2.rsp + 8) == e1.value);
    assert(load64(t2.mem, t2.rsp) == e2.value);
    lemma_operation_runs(node.kind, t2);
    let t3 = run(operation, t2)->0;
    lemma_run_concat(left, right, s);
    lemma_run_concat(left + right, operation, s);
    assert(run(node_code(node).code, s) == Some(t3));
    let e = eval(node, s.rbp, s.mem)->0;
    lemma_load_after_store(t2.mem, s.rsp - 8, e.value);
    assert(agree_between(t3.mem, s.mem, s.rsp, top)) by {
        assert forall|x: int| s.rsp <= x < top implies #[trigger] t3.mem[x] == s.mem[x] by {
            assert(t3.mem[x] == t2.mem[x]);
            assert(t2.mem[x] == t1.mem[x]);
        }
    }
    assert(agree_from(t3.mem, e.mem, top)) by {
        assert forall|x: int| top <= x implies #[trigger] t3.mem[x] == e.mem[x] by {
            assert(t3.mem[x] == t2.mem[x]);
            assert(t2.mem[x] == direct.mem[x]);
            assert(direct.mem[x] == e2.mem[x]);
        }
    }
}

/// The code of a tree computes the value of the tree: run from a state
/// whose stack lies at or below `top` and whose variables lie at or above
/// it, it leaves the value of the tree pushed, the rest of the stack
/// untouched, and in the variables what the assignments of the tree store.
/// It holds of every tree that can be lowered and has a value.
pub proof fn lemma_gen_computes(node: Node, s: Machine, top: int)
    requires
        node_code(node).error is None,
        s.returned is None,
        s.rsp <= top,
        slots_at_or_above(node, s.rbp, top),
        eval(node, s.rbp, s.mem) is Some,
    ensures
        run(node_code(node).code, s) is Some,
        computes(s, run(node_code(node).code, s)->0, eval(node, s.rbp, s.mem)->0, top),
    decreases node, 1nat,
{
    match node.kind {
        NodeKind::NdNum => lemma_number_computes(node, s, top),
        NodeKind::NdLvar => lemma_variable_computes(node, s, top),
        NodeKind::NdAssign => lemma_assignment_computes(node, s, top),
        _ => lemma_binary_computes(node, s, top),
    }
}

/// The header does nothing.
proof fn lemma_header_runs(s: Machine)
    ensures
        run(header_code(), s) == Some(s),
{
    lemma_run_3(Instr::IntelSyntax, Instr::GlobalMain, Instr::MainLabel, s);
}

/// The epilogue returns the value on top of the stack.
proof fn lemma_epilogue_runs(s: Machine)
    requires
        s.returned is None,
    ensures
        run(epilogue_code(), s) is Some,
        run(epilogue_code(), s)->0.returned == Some(load64(s.mem, s.rsp)),
        run(epilogue_code(), s)->0.mem == s.mem,
{
    let e = Seq::<Instr>::empty();
    lemma_run_push(e, Instr::PopRax, s);
    lemma_run_push(e.push(Instr::PopRax), Instr::Ret, s);
    assert(epilogue_code() =~= e.push(Instr::PopRax).push(Instr::Ret));
    let s1 = Machine { rax: load64(s.mem, s.rsp), rsp: s.rsp + 8, ..s };
    assert(step(Instr::PopRax, s) == Some(s1));
    assert(step(Instr::Ret, s1) == Some(Machine { returned: Some(s1.rax), ..s1 }));
}

/// The listing of a single expression returns the value of the
/// expression: for every tree that can be lowered and has a value, run
/// from a state whose variables lie at or above the stack, the machine
/// reaches `ret` with that value in the return register.
pub proof fn lemma_expression_returns_value(node: Node, s: Machine)
    requires
        expression_code(node).error is None,
        s.returned is None,
        slots_at_or_above(node, s.rbp, s.rsp),
        eval(node, s.rbp, s.mem) is Some,
    ensures
        run(expression_code(node).code, s) is Some,
        run(expression_code(node).code, s)->0.returned == Some(
            eval(node, s.rbp, s.mem)->0.value,
        ),
        agree_from(
            run(expression_code(node).code, s)->0.mem,
            eval(node, s.rbp, s.mem)->0.mem,
            s.rsp,
        ),
{
    let body = node_code(node).code;
    lemma_header_runs(s);
    lemma_gen_computes(node, s, s.rsp);
    let t = run(body, s)->0;
    lemma_epilogue_runs(t);
    lemma_run_concat(header_code(), body, s);
    lemma_run_concat(header_code() + body, epilogue_code(), s);
}

/// Whether `t` is what the statements with the outcome `(last, mem)` leave
/// of a state whose stack started at `top`.
pub open spec fn statements_done(t: Machine, base: int, top: int, last: Option<i64>, mem: Memory) -> bool {
    &&& t.rbp == base
    &&& t.returned is None
    &&& agree_from(t.mem, mem, top)
    &&& match last {
        Some(value) => t.rsp == top - 8 && load64(t.mem, t.rsp) == value,
        None => t.rsp == top,
    }
}

/// The code of a sequence of statements evaluates them in order and
/// leaves the value of the last one pushed.
pub proof fn lemma_statements_run(
    code: Seq<Option<Box<Node>>>,
    s: Machine,
    top: int,
    last: Option<i64>,
)
    requires
        statements_code(code, last is Some).error is None,
        all_slots_at_or_above(code, s.rbp, top),
        eval_statements(code, s.rbp, s.mem, last) is Some,
        statements_done(s, s.rbp, top, last, s.mem),
    ensures
        run(statements_code(code, last is Some).code, s) is Some,
        statements_done(
            run(statements_code(code, last is Some).code, s)->0,
            s.rbp,
            top,
            eval_statements(code, s.rbp, s.mem, last)->0.last,
            eval_statements(code, s.rbp, s.mem, last)->0.mem,
        ),
    decreases code.len(),
{
    if code.len() > 0 {
        let rest = code.skip(1);
        assert(all_slots_at_or_above(rest, s.rbp, top)) by {
            assert forall|i: int| 0 <= i < rest.len() && (#[trigger] rest[i]) is Some implies
                slots_at_or_above(*rest[i]->0, s.rbp, top) by {
                assert(rest[i] == code[i + 1]);
            }
        }
        match code[0] {
            None => {
                lemma_statements_run(rest, s, top, last);
            },
            Some(node) => {
                let discard = if last is Some {
                    seq![Instr::PopRax]
                } else {
                    Seq::<Instr>::empty()
                };
                let first = node_code(*node).code;
                let others = statements_code(rest, true).code;
                let s1 = if last is Some {
                    Machine { rax: load64(s.mem, s.rsp), rsp: top, ..s }
                } else {
                    s
                };
                assert(run(discard, s) == Some(s1)) by {
                    if last is Some {
                        lemma_run_push(Seq::<Instr>::empty(), Instr::PopRax, s);
                        assert(discard =~= Seq::<Instr>::empty().push(Instr::PopRax));
                        assert(step(Instr::PopRax, s) == Some(s1));
                    }
                }
                assert(code[0] is Some);
                lemma_gen_computes(*node, s1, top);
                let t1 = run(first, s1)->0;
                let e = eval(*node, s.rbp, s.mem)->0;
                lemma_eval_statements_agrees(rest, s.rbp, t1.mem, e.mem, top, Some(e.value));
                lemma_statements_run(rest, t1, top, Some(e.value));
                lemma_run_concat(discard, first, s);
                lemma_run_concat(discard + first, others, s);
                let t2 = run(others, t1)->0;
                let direct = eval_statements(rest, s.rbp, t1.mem, Some(e.value))->0;
                let outcome = eval_statements(code, s.rbp, s.mem, last)->0;
                assert(agree_from(t2.mem, outcome.mem, top)) by {
                    assert forall|x: int| top <= x implies #[trigger] t2.mem[x] == outcome.mem[x] by {
                        assert(t2.mem[x] == direct.mem[x]);
                    }
                }
            },
        }
    }
}

/// The listing of a program returns the value of its last statement: for
/// every program whose statements can be lowered and have values, the
/// machine reaches `ret` with the value of the last statement in the
/// return register, and the variables hold what the assignments stored.
/// The frame base is the address below the caller's stack pointer, and
/// the statements are evaluated in the memory in which the caller's frame
/// base has been saved there.
pub proof fn lemma_program_returns_last(code: Seq<Option<Box<Node>>>, s: Machine)
    requires
        program_code(code).error is None,
        s.returned is None,
        all_slots_at_or_above(code, s.rsp - 8, s.rsp - 8 - FRAME_BYTES),
        eval_statements(code, s.rsp - 8, store64(s.mem, s.rsp - 8, s.rbp as i64), None) is Some,
    ensures
        run(program_code(code).code, s) is Some,
        ({
            let outcome = eval_statements(
                code,
                s.rsp - 8,
                store64(s.mem, s.rsp - 8, s.rbp as i64),
                None,
            )->0;
            let t = run(program_code(code).code, s)->0;
            &&& outcome.last is Some ==> t.returned == outcome.last
            &&& agree_from(t.mem, outcome.mem, s.rsp - 8 - FRAME_BYTES)
        }),
{
    let base = s.rsp - 8;
    let top = base - FRAME_BYTES;
    let body = statements_code(code, false).code;
    lemma_header_runs(s);
    lemma_run_3(Instr::PushRbp, Instr::MovRbpRsp, Instr::SubRsp(FRAME_BYTES), s);
    let s1 = pushed(s, s.rbp as i64);
    assert(step(Instr::PushRbp, s) == Some(s1));
    let s2 = Machine { rbp: base, ..s1 };
    assert(step(Instr::MovRbpRsp, s1) == Some(s2));
    let s3 = Machine { rsp: top, flags: None, ..s2 };
    assert(step(Instr::SubRsp(FRAME_BYTES), s2) == Some(s3));
    assert(run(prologue_code(), s) == Some(s3));
    lemma_statements_run(code, s3, top, None);
    let t = run(body, s3)->0;
    let outcome = eval_statements(code, base, s3.mem, None)->0;
    lemma_epilogue_runs(t);
    lemma_run_concat(header_code(), prologue_code(), s);
    lemma_run_concat(header_code() + prologue_code(), body, s);
    lemma_run_concat(header_code() + prologue_code() + body, epilogue_code(), s);
}

/// A comparison pushes 1 or 0 and nothing else: whatever the operands
/// are, the code of a tree of kind `NdEq`, `NdNe`, `NdLt` or `NdLe` leaves
/// one of these two values on top of the stack.
pub proof fn lemma_comparison_pushes_bit(node: Node, s: Machine, top: int)
    requires
        node.kind.is_comparison(),
        node_code(node).error is None,
        s.returned is None,
        s.rsp <= top,
        slots_at_or_above(node, s.rbp, top),
        eval(node, s.rbp, s.mem) is Some,
    ensures
        run(node_code(node).code, s) is Some,
        ({
            let t = run(node_code(node).code, s)->0;
            load64(t.mem, t.rsp) == 0 || load64(t.mem, t.rsp) == 1
        }),
{
    lemma_gen_computes(node, s, top);
}

/// An assignment is an expression: its code leaves the assigned value on
/// top of the stack, and the slot of the variable holds that value
/// afterwards.
pub proof fn lemma_assignment_pushes_and_stores(node: Node, s: Machine, top: int)
    requires
        node.kind == NodeKind::NdAssign,
        node_code(node).error is None,
        s.returned is None,
        s.rsp <= top,
        slots_at_or_above(node, s.rbp, top),
        eval(node, s.rbp, s.mem) is Some,
    ensures
        run(node_code(node).code, s) is Some,
        ({
            let t = run(node_code(node).code, s)->0;
            let value = eval(*node.rhs->0, s.rbp, s.mem)->0.value;
            &&& load64(t.mem, t.rsp) == value
            &&& load64(t.mem, s.rbp - node.lhs->0.offset->0) == value
        }),
{
    lemma_gen_computes(node, s, top);
    let t = run(node_code(node).code, s)->0;
    let stored = eval(*node.rhs->0, s.rbp, s.mem)->0;
    let e = eval(node, s.rbp, s.mem)->0;
    let addr = s.rbp - node.lhs->0.offset->0;
    assert(slots_at_or_above(*node.lhs->0, s.rbp, top));
    lemma_load_after_store(stored.mem, addr, stored.value);
    lemma_load_agrees(t.mem, e.mem, top, addr);
}

/// A chain of two assignments stores the value in the slot of the first
/// variable, and in the slot of the second one where the two slots are the
/// same or share no byte. Slots that lie less than 8 bytes apart share
/// bytes, and the first store then overwrites part of the second.
pub proof fn lemma_chained_assignment_stores(node: Node, s: Machine, top: int)
    requires
        node.kind == NodeKind::NdAssign,
        node.rhs is Some,
        node.rhs->0.kind == NodeKind::NdAssign,
        node_code(node).error is None,
        s.returned is None,
        s.rsp <= top,
        slots_at_or_above(node, s.rbp, top),
        eval(node, s.rbp, s.mem) is Some,
    ensures
        run(node_code(node).code, s) is Some,
        ({
            let t = run(node_code(node).code, s)->0;
            let inner = *node.rhs->0;
            let value = eval(*inner.rhs->0, s.rbp, s.mem)->0.value;
            let first = node.lhs->0.offset->0;
            let second = inner.lhs->0.offset->0;
            &&& load64(t.mem, t.rsp) == value
            &&& load64(t.mem, s.rbp - first) == value
            &&& (first == second || first - second >= 8 || second - first >= 8) ==> load64(
                t.mem,
                s.rbp - second,
            ) == value
        }),
{
    lemma_gen_computes(node, s, top);
    let t = run(node_code(node).code, s)->0;
    let inner = *node.rhs->0;
    let stored = eval(*inner.rhs->0, s.rbp, s.mem)->0;
    let middle = eval(inner, s.rbp, s.mem)->0;
    let e = eval(node, s.rbp, s.mem)->0;
    let first = s.rbp - node.lhs->0.offset->0;
    let second = s.rbp - inner.lhs->0.offset->0;
    assert(slots_at_or_above(*node.lhs->0, s.rbp, top));
    assert(slots_at_or_above(inner, s.rbp, top));
    assert(slots_at_or_above(*inner.lhs->0, s.rbp, top));
    lemma_load_after_store(stored.mem, second, stored.value);
    lemma_load_after_store(middle.mem, first, stored.value);
    lemma_load_agrees(t.mem, e.mem, top, first);
    lemma_load_agrees(t.mem, e.mem, top, second);
    if first - second >= 8 || second - first >= 8 {
        lemma_load_apart_from_store(middle.mem, first, stored.value, second);
    }
}

/// Reading a variable never faults, whatever its slot holds: the code of
/// a variable runs to its end and pushes the 8 bytes found in the slot,
/// and changes no byte at or above `top`.
pub proof fn lemma_variable_read_runs(offset: i32, s: Machine, top: int)
    requires
        s.returned is None,
        s.rsp <= top,
        slot_at_or_above(offset, s.rbp, top),
    ensures
        node_code(lvar_node(Some(offset))).error is None,
        run(node_code(lvar_node(Some(offset))).code, s) is Some,
        ({
            let t = run(node_code(lvar_node(Some(offset))).code, s)->0;
            &&& t.rsp == s.rsp - 8
            &&& load64(t.mem, t.rsp) == load64(s.mem, s.rbp - offset)
            &&& agree_from(t.mem, s.mem, top)
        }),
{
    lemma_gen_computes(lvar_node(Some(offset)), s, top);
}

/// A well-formed tree lacks nothing the generator needs: the only way it
/// can fail to be lowered is an assignment to something that is no variable.
pub proof fn lemma_well_formed_lowers(node: Node)
    requires
        node.well_formed(),
    ensures
        node_code(node).error != Some(GenError::InvalidNode),
    decreases node,
{
    if node.kind.is_binary() {
        lemma_well_formed_lowers(*node.lhs->0);
        lemma_well_formed_lowers(*node.rhs->0);
    }
}

/// An arithmetic tree can always be lowered.
pub proof fn lemma_arithmetic_lowers(node: Node)
    requires
        is_arithmetic(node),
    ensures
        node_code(node).error is None,
    decreases node,
{
    if node.kind != NodeKind::NdNum {
        lemma_arithmetic_lowers(*node.lhs->0);
        lemma_arithmetic_lowers(*node.rhs->0);
    }
}

/// Arithmetic comes back as it went in: for every tree built from integer
/// literals with `+`, `-`, `*` and `/` whose divisions have values, the
/// listing of the expression, run from any state, reaches `ret` with the
/// value of the tree in the return register.
pub proof fn lemma_arithmetic_returns_value(node: Node, s: Machine)
    requires
        is_arithmetic(node),
        arithmetic_value(node) is Some,
        s.returned is None,
    ensures
        expression_code(node).error is None,
        run(expression_code(node).code, s) is Some,
        run(expression_code(node).code, s)->0.returned == arithmetic_value(node),
{
    lemma_arithmetic_lowers(node);
    lemma_eval_arithmetic(node, s.rbp, s.mem);
    assert(slots_at_or_above(node, s.rbp, s.rsp)) by {
        lemma_slots_of_arithmetic(node, s.rbp, s.rsp);
    }
    lemma_expression_returns_value(node, s);
}

/// An arithmetic tree has no variables, so its slots lie wherever one likes.
proof fn lemma_slots_of_arithmetic(node: Node, base: int, top: int)
    requires
        is_arithmetic(node),
    ensures
        slots_at_or_above(node, base, top),
    decreases node,
{
    if node.kind != NodeKind::NdNum {
        lemma_slots_of_arithmetic(*node.lhs->0, base, top);
        lemma_slots_of_arithmetic(*node.rhs->0, base, top);
    }
}

} // verus!
