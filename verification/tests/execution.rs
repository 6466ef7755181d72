use std::collections::HashMap;

use chibicc::codegen::{codegen, codegen_expr};
use chibicc::listing::Instr;
use chibicc::parse::{expr, program};
use chibicc::tokenize::tokenize;

struct Cpu {
    rax: i64,
    rdi: i64,
    rdx: i64,
    rsp: i64,
    rbp: i64,
    flags: Option<(i64, i64)>,
    mem: HashMap<i64, u8>,
}

impl Cpu {
    fn new() -> Cpu {
        Cpu { rax: 0, rdi: 0, rdx: 0, rsp: 1 << 20, rbp: 0, flags: None, mem: HashMap::new() }
    }

    fn load(&self, addr: i64) -> i64 {
        let mut bytes = [0u8; 8];
        for k in 0..8 {
            bytes[k] = *self.mem.get(&(addr + k as i64)).unwrap_or(&0xcc);
        }
        i64::from_le_bytes(bytes)
    }

    fn store(&mut self, addr: i64, value: i64) {
        for (k, byte) in value.to_le_bytes().iter().enumerate() {
            self.mem.insert(addr + k as i64, *byte);
        }
    }

    fn push(&mut self, value: i64) {
        self.rsp -= 8;
        self.store(self.rsp, value);
    }

    fn pop(&mut self) -> i64 {
        let value = self.load(self.rsp);
        self.rsp += 8;
        value
    }

    fn set(&mut self, holds: fn(i64, i64) -> bool) {
        let (a, b) = self.flags.expect("set without a comparison");
        self.rax = (self.rax & !0xff) | holds(a, b) as i64;
    }

    fn run(&mut self, code: &[Instr]) -> Option<i64> {
        for instr in code {
            match *instr {
                Instr::IntelSyntax | Instr::GlobalMain | Instr::MainLabel => {}
                Instr::PushRbp => self.push(self.rbp),
                Instr::MovRbpRsp => self.rbp = self.rsp,
                Instr::SubRsp(n) => self.rsp -= n as i64,
                Instr::PushImm(n) => self.push(n as i64),
                Instr::PushRax => self.push(self.rax),
                Instr::PushRdi => self.push(self.rdi),
                Instr::PopRax => self.rax = self.pop(),
                Instr::PopRdi => self.rdi = self.pop(),
                Instr::MovRaxRbp => self.rax = self.rbp,
                Instr::SubRaxImm(n) => self.rax = self.rax.wrapping_sub(n as i64),
                Instr::Load => self.rax = self.load(self.rax),
                Instr::Store => self.store(self.rax, self.rdi),
                Instr::Add => self.rax = self.rax.wrapping_add(self.rdi),
                Instr::Sub => self.rax = self.rax.wrapping_sub(self.rdi),
                Instr::Imul => self.rax = self.rax.wrapping_mul(self.rdi),
                Instr::Cqo => self.rdx = if self.rax < 0 { -1 } else { 0 },
                Instr::Idiv => {
                    let dividend = ((self.rdx as i128) << 64) | (self.rax as u64 as i128);
                    let quotient = dividend / self.rdi as i128;
                    self.rdx = (dividend % self.rdi as i128) as i64;
                    self.rax = i64::try_from(quotient).expect("quotient too large");
                }
                Instr::Compare => self.flags = Some((self.rax, self.rdi)),
                Instr::SetE => self.set(|a, b| a == b),
                Instr::SetNe => self.set(|a, b| a != b),
                Instr::SetL => self.set(|a, b| a < b),
                Instr::SetLe => self.set(|a, b| a <= b),
                Instr::Movzb => self.rax &= 0xff,
                Instr::Ret => return Some(self.rax),
            }
        }
        None
    }
}

fn value_of(source: &str) -> i64 {
    let mut token = tokenize(source).unwrap();
    let node = expr(&mut token).unwrap();
    let mut out = Vec::new();
    codegen_expr(&node, &mut out).unwrap();
    let mut cpu = Cpu::new();
    let start = cpu.rsp;
    let value = cpu.run(&out).unwrap();
    assert_eq!(cpu.rsp, start);
    value
}

fn executed(source: &str) -> (i64, Cpu) {
    let mut token = tokenize(source).unwrap();
    let code = program(&mut token).unwrap();
    let mut out = Vec::new();
    codegen(&code, &mut out).unwrap();
    let mut cpu = Cpu::new();
    let value = cpu.run(&out).unwrap();
    (value, cpu)
}

fn returned(source: &str) -> i64 {
    executed(source).0
}

#[test]
fn arithmetic_follows_precedence() {
    assert_eq!(value_of("1+2*3"), 7);
    assert_eq!(value_of("(1+2)*3"), 9);
    assert_eq!(value_of("2*3+4*5"), 26);
    assert_eq!(value_of("5+6*7"), 47);
    assert_eq!(value_of("5*(9-6)"), 15);
    assert_eq!(value_of("(3+5)/2"), 4);
    assert_eq!(value_of(" 12 + 34 - 5 "), 41);
}

#[test]
fn arithmetic_associates_to_the_left() {
    assert_eq!(value_of("10-3-2"), 5);
    assert_eq!(value_of("100/10/5"), 2);
    assert_eq!(value_of("2-3+4"), 3);
    assert_eq!(value_of("8/4*2"), 4);
}

#[test]
fn division_rounds_towards_zero() {
    assert_eq!(value_of("7/2"), 3);
    assert_eq!(value_of("-7/2"), -3);
    assert_eq!(value_of("7/-2"), -3);
    assert_eq!(value_of("-7/-2"), 3);
    assert_eq!(value_of("0/5"), 0);
}

#[test]
fn unary_signs() {
    assert_eq!(value_of("-10+20"), 10);
    assert_eq!(value_of("- -10"), 10);
    assert_eq!(value_of("- - +10"), 10);
    assert_eq!(value_of("-2147483647-1"), -2147483648);
}

#[test]
fn values_are_64_bits_wide() {
    assert_eq!(value_of("2147483647+1"), 2147483648);
    assert_eq!(value_of("2147483647*2147483647"), 4611686014132420609);
    assert_eq!(value_of("2147483647*2147483647*4"), -17179869180);
}

#[test]
fn comparisons_yield_one_or_zero() {
    assert_eq!(value_of("0==1"), 0);
    assert_eq!(value_of("42==42"), 1);
    assert_eq!(value_of("0!=1"), 1);
    assert_eq!(value_of("42!=42"), 0);
    assert_eq!(value_of("0<1"), 1);
    assert_eq!(value_of("1<1"), 0);
    assert_eq!(value_of("2<1"), 0);
    assert_eq!(value_of("0<=1"), 1);
    assert_eq!(value_of("1<=1"), 1);
    assert_eq!(value_of("2<=1"), 0);
    assert_eq!(value_of("1>0"), 1);
    assert_eq!(value_of("1>1"), 0);
    assert_eq!(value_of("1>2"), 0);
    assert_eq!(value_of("1>=0"), 1);
    assert_eq!(value_of("1>=1"), 1);
    assert_eq!(value_of("1>=2"), 0);
    assert_eq!(value_of("-1<0"), 1);
    assert_eq!(value_of("(1<2)+(3>=3)"), 2);
    assert_eq!(value_of("1000000 == 1000001 - 1"), 1);
}

#[test]
fn last_statement_is_returned() {
    assert_eq!(returned("1; 2; 3;"), 3);
    assert_eq!(returned("42;"), 42);
    assert_eq!(returned("1+1; 2*3; 10-4 == 6;"), 1);
}

#[test]
fn assignment_has_the_assigned_value() {
    let (value, cpu) = executed("a = 5;");
    assert_eq!(value, 5);
    assert_eq!(cpu.load(cpu.rbp), 5);
    assert_eq!(returned("1 + (a = 5);"), 6);
    assert_eq!(returned("a = 5; a;"), 5);
    assert_eq!(returned("a = 5; a = a + 1; a * 2;"), 12);
}

#[test]
fn variables_eight_letters_apart_are_independent() {
    assert_eq!(returned("a = 3; i = 5; q = 7; y = 9; a;"), 3);
    assert_eq!(returned("a = 3; i = 5; q = 7; y = 9; i;"), 5);
    assert_eq!(returned("a = 3; i = 5; q = 7; y = 9; a + i + q + y;"), 24);
    assert_eq!(returned("i = a = 3; i + a;"), 6);
}

#[test]
fn chained_assignment_reaches_the_first_variable() {
    let (value, cpu) = executed("a = b = 3;");
    assert_eq!(value, 3);
    assert_eq!(cpu.load(cpu.rbp), 3);
    assert_eq!(returned("a = b = 3; a;"), 3);
}

#[test]
fn neighbouring_slots_share_bytes() {
    assert_eq!(returned("a = b = 3; b;"), 0x0303);
    assert_eq!(returned("b = 1; a = 0; b;"), 1);
    assert_eq!(returned("a = 1; b = 0; a;"), 0);
}

#[test]
fn unassigned_variable_can_be_read() {
    let (_, cpu) = executed("z;");
    assert_eq!(cpu.rsp, cpu.rbp - 208);
    let (value, _) = executed("z == z;");
    assert_eq!(value, 1);
}
