//! A model of the machine that runs the generated code: three 64-bit
//! registers for values, the stack pointer, the frame base, the outcome of
//! the last comparison, and a memory of bytes.
//!
//! The stack pointer and the frame base are addresses and not bounded here:
//! the stack of the model never runs out. A value moved from one of them
//! into a register is cut to 64 bits.

use vstd::prelude::*;
use vstd::bytes::{
    lemma_auto_spec_u64_to_from_le_bytes, spec_u64_from_le_bytes, spec_u64_to_le_bytes,
};
use crate::listing::Instr;

verus! {

/// The bytes of the memory, each under its address.
pub type Memory = Map<int, u8>;

/// Two to the power of 64.
pub open spec fn two_to_64() -> int {
    0x1_0000_0000_0000_0000
}

/// The 64 bits of a signed value, read as an unsigned number.
pub open spec fn unsigned(value: i64) -> u64 {
    if value < 0 {
        (value + two_to_64()) as u64
    } else {
        value as u64
    }
}

/// The 64 bits of an unsigned number, read as a signed value.
pub open spec fn signed(bits: u64) -> i64 {
    if bits > i64::MAX {
        (bits - two_to_64()) as i64
    } else {
        bits as i64
    }
}

/// The value held by the 8 bytes from `addr` on, lowest byte first.
pub open spec fn load64(mem: Memory, addr: int) -> i64 {
    signed(spec_u64_from_le_bytes(Seq::new(8, |k: int| mem[addr + k])))
}

/// The memory after `value` is written to the 8 bytes from `addr` on,
/// lowest byte first.
pub open spec fn store64(mem: Memory, addr: int, value: i64) -> Memory {
    Map::new(
        |x: int| true,
        |x: int|
            if addr <= x < addr + 8 {
                spec_u64_to_le_bytes(unsigned(value))[x - addr]
            } else {
                mem[x]
            },
    )
}

/// The state of the machine.
pub struct Machine {
    /// First scratch register, and the return register.
    pub rax: i64,
    /// Second scratch register.
    pub rdi: i64,
    /// Upper half of the dividend, and the remainder.
    pub rdx: i64,
    /// Address of the top of the stack; the stack grows downwards.
    pub rsp: int,
    /// Address of the frame base.
    pub rbp: int,
    /// The operands of the last comparison, until an arithmetic
    /// instruction overwrites the flags.
    pub flags: Option<(i64, i64)>,
    /// The memory.
    pub mem: Memory,
    /// The value handed back by `ret`; once it is set, nothing runs.
    pub returned: Option<i64>,
}

/// The state after `value` is pushed.
pub open spec fn pushed(s: Machine, value: i64) -> Machine {
    Machine { rsp: s.rsp - 8, mem: store64(s.mem, s.rsp - 8, value), ..s }
}

/// The quotient of a division that rounds towards zero.
pub open spec fn truncated_quotient(a: int, b: int) -> int {
    if a >= 0 && b > 0 {
        a / b
    } else if a >= 0 {
        -(a / (-b))
    } else if b > 0 {
        -((-a) / b)
    } else {
        (-a) / (-b)
    }
}

/// `value` with its lowest byte replaced by 1 or 0.
pub open spec fn with_low_byte(value: i64, bit: bool) -> i64 {
    let low: int = if bit {
        1
    } else {
        0
    };
    (value - (value as int) % 256 + low) as i64
}

/// The lowest byte of `value`, extended with zeros.
pub open spec fn low_byte(value: i64) -> i64 {
    ((value as int) % 256) as i64
}

/// The state after one line has run, or `None` where the machine faults:
/// on a division by zero, on a quotient that does not fit 64 bits, and on
/// a `set` instruction without a comparison before it. Directives and the
/// label do nothing. After `ret` nothing changes any more.
pub open spec fn step(instr: Instr, s: Machine) -> Option<Machine> {
    if s.returned is Some {
        Some(s)
    } else {
        match instr {
            Instr::IntelSyntax | Instr::GlobalMain | Instr::MainLabel => Some(s),
            Instr::PushRbp => Some(pushed(s, s.rbp as i64)),
            Instr::MovRbpRsp => Some(Machine { rbp: s.rsp, ..s }),
            Instr::SubRsp(n) => Some(Machine { rsp: s.rsp - n, flags: None, ..s }),
            Instr::PushImm(n) => Some(pushed(s, n as i64)),
            Instr::PushRax => Some(pushed(s, s.rax)),
            Instr::PushRdi => Some(pushed(s, s.rdi)),
            Instr::PopRax => Some(Machine { rax: load64(s.mem, s.rsp), rsp: s.rsp + 8, ..s }),
            Instr::PopRdi => Some(Machine { rdi: load64(s.mem, s.rsp), rsp: s.rsp + 8, ..s }),
            Instr::MovRaxRbp => Some(Machine { rax: s.rbp as i64, ..s }),
            Instr::SubRaxImm(n) => Some(Machine { rax: (s.rax - n) as i64, flags: None, ..s }),
            Instr::Load => Some(Machine { rax: load64(s.mem, s.rax as int), ..s }),
            Instr::Store => Some(Machine { mem: store64(s.mem, s.rax as int, s.rdi), ..s }),
            Instr::Add => Some(Machine { rax: (s.rax + s.rdi) as i64, flags: None, ..s }),
            Instr::Sub => Some(Machine { rax: (s.rax - s.rdi) as i64, flags: None, ..s }),
            Instr::Imul => Some(Machine { rax: (s.rax * s.rdi) as i64, flags: None, ..s }),
            Instr::Cqo => Some(
                Machine {
                    rdx: if s.rax < 0 {
                        -1i64
                    } else {
                        0i64
                    },
                    ..s
                },
            ),
            Instr::Idiv => {
                let dividend = s.rdx * two_to_64() + unsigned(s.rax);
                let quotient = truncated_quotient(dividend, s.rdi as int);
                if s.rdi == 0 || quotient < i64::MIN || quotient > i64::MAX {
                    None
                } else {
                    Some(
                        Machine {
                            rax: quotient as i64,
                            rdx: (dividend - quotient * s.rdi) as i64,
                            flags: None,
                            ..s
                        },
                    )
                }
            },
            Instr::Compare => Some(Machine { flags: Some((s.rax, s.rdi)), ..s }),
            Instr::SetE => match s.flags {
                Some((a, b)) => Some(Machine { rax: with_low_byte(s.rax, a == b), ..s }),
                None => None,
            },
            Instr::SetNe => match s.flags {
                Some((a, b)) => Some(Machine { rax: with_low_byte(s.rax, a != b), ..s }),
                None => None,
            },
            Instr::SetL => match s.flags {
                Some((a, b)) => Some(Machine { rax: with_low_byte(s.rax, a < b), ..s }),
                None => None,
            },
            Instr::SetLe => match s.flags {
                Some((a, b)) => Some(Machine { rax: with_low_byte(s.rax, a <= b), ..s }),
                None => None,
            },
            Instr::Movzb => Some(Machine { rax: low_byte(s.rax), ..s }),
            Instr::Ret => Some(Machine { returned: Some(s.rax), ..s }),
        }
    }
}

/// The state after the lines of `code` have run in order, or `None` where
/// the machine faults on the way.
pub open spec fn run(code: Seq<Instr>, s: Machine) -> Option<Machine>
    decreases code.len(),
{
    if code.len() == 0 {
        Some(s)
    } else {
        match step(code[0], s) {
            Some(next) => run(code.skip(1), next),
            None => None,
        }
    }
}

/// Running two listings one after the other is running them joined.
pub proof fn lemma_run_concat(first: Seq<Instr>, second: Seq<Instr>, s: Machine)
    ensures
        run(first + second, s) == match run(first, s) {
            Some(middle) => run(second, middle),
            None => None,
        },
    decreases first.len(),
{
    if first.len() == 0 {
        assert(first + second =~= second);
    } else {
        assert((first + second).skip(1) =~= first.skip(1) + second);
        if let Some(next) = step(first[0], s) {
            lemma_run_concat(first.skip(1), second, next);
        }
    }
}

/// What is written to an address is what is read from it.
pub proof fn lemma_load_after_store(mem: Memory, addr: int, value: i64)
    ensures
        load64(store64(mem, addr, value), addr) == value,
{
    lemma_auto_spec_u64_to_from_le_bytes();
    let bytes = spec_u64_to_le_bytes(unsigned(value));
    assert(Seq::new(8, |k: int| store64(mem, addr, value)[addr + k]) =~= bytes);
}

/// A write leaves what lies 8 bytes or more away as it was.
pub proof fn lemma_load_apart_from_store(mem: Memory, addr: int, value: i64, other: int)
    requires
        other + 8 <= addr || addr + 8 <= other,
    ensures
        load64(store64(mem, addr, value), other) == load64(mem, other),
{
    assert(Seq::new(8, |k: int| store64(mem, addr, value)[other + k]) =~= Seq::new(
        8,
        |k: int| mem[other + k],
    ));
}

/// After a comparison has set the lowest byte and `movzb` has cleared the
/// rest, the register holds 1 or 0.
pub proof fn lemma_low_byte_of_set(value: i64, bit: bool)
    ensures
        low_byte(with_low_byte(value, bit)) == (if bit {
            1i64
        } else {
            0i64
        }),
{
}

/// After `cqo` the dividend of `idiv` is the value of `rax`.
pub proof fn lemma_sign_extended_dividend(value: i64)
    ensures
        (if value < 0 {
            -1
        } else {
            0int
        }) * two_to_64() + unsigned(value) == value,
{
}

} // verus!
