//! The lines of assembly that the code generator emits, and their text.

use vstd::prelude::*;
use vstd::string::*;
use crate::text::{decimal, push_decimal};

verus! {

broadcast use vstd::string::group_string_axioms;

/// One line of output: a directive, the entry label or an instruction.
#[derive(Debug, PartialEq, Eq, Clone, Copy, Structural)]
pub enum Instr {
    /// `.intel_syntax noprefix`
    IntelSyntax,
    /// `.globl main`
    GlobalMain,
    /// `main:`
    MainLabel,
    /// `push rbp`
    PushRbp,
    /// `mov rbp, rsp`
    MovRbpRsp,
    /// `sub rsp, n`
    SubRsp(i32),
    /// `push n`
    PushImm(i32),
    /// `push rax`
    PushRax,
    /// `push rdi`
    PushRdi,
    /// `pop rax`
    PopRax,
    /// `pop rdi`
    PopRdi,
    /// `mov rax, rbp`
    MovRaxRbp,
    /// `sub rax, n`
    SubRaxImm(i32),
    /// `mov rax, [rax]`
    Load,
    /// `mov [rax], rdi`
    Store,
    /// `add rax, rdi`
    Add,
    /// `sub rax, rdi`
    Sub,
    /// `imul rax, rdi`
    Imul,
    /// `cqo`
    Cqo,
    /// `idiv rdi`
    Idiv,
    /// `cmp rax, rdi`
    Compare,
    /// `sete al`
    SetE,
    /// `setne al`
    SetNe,
    /// `setl al`
    SetL,
    /// `setle al`
    SetLe,
    /// `movzb rax, al`
    Movzb,
    /// `ret`
    Ret,
}

impl Instr {
    /// The line as it stands in the output, without the line break.
    pub open spec fn text(self) -> Seq<char> {
        match self {
            Instr::IntelSyntax => ".intel_syntax noprefix"@,
            Instr::GlobalMain => ".globl main"@,
            Instr::MainLabel => "main:"@,
            Instr::PushRbp => "  push rbp"@,
            Instr::MovRbpRsp => "  mov rbp, rsp"@,
            Instr::SubRsp(n) => "  sub rsp, "@ + decimal(n),
            Instr::PushImm(n) => "  push "@ + decimal(n),
            Instr::PushRax => "  push rax"@,
            Instr::PushRdi => "  push rdi"@,
            Instr::PopRax => "  pop rax"@,
            Instr::PopRdi => "  pop rdi"@,
            Instr::MovRaxRbp => "  mov rax, rbp"@,
            Instr::SubRaxImm(n) => "  sub rax, "@ + decimal(n),
            Instr::Load => "  mov rax, [rax]"@,
            Instr::Store => "  mov [rax], rdi"@,
            Instr::Add => "   add rax, rdi"@,
            Instr::Sub => "   sub rax, rdi"@,
            Instr::Imul => "   imul rax, rdi"@,
            Instr::Cqo => "  cqo"@,
            Instr::Idiv => "  idiv rdi"@,
            Instr::Compare => "  cmp rax, rdi"@,
            Instr::SetE => "  sete al"@,
            Instr::SetNe => "  setne al"@,
            Instr::SetL => "  setl al"@,
            Instr::SetLe => "  setle al"@,
            Instr::Movzb => "  movzb rax, al"@,
            Instr::Ret => "  ret"@,
        }
    }

    /// Renders the line.
    pub fn to_text(&self) -> (line: String)
        ensures
            line@ == self.text(),
    {
        match self {
            Instr::IntelSyntax => ".intel_syntax noprefix".to_string(),
            Instr::GlobalMain => ".globl main".to_string(),
            Instr::MainLabel => "main:".to_string(),
            Instr::PushRbp => "  push rbp".to_string(),
            Instr::MovRbpRsp => "  mov rbp, rsp".to_string(),
            Instr::SubRsp(n) => {
                let mut line = "  sub rsp, ".to_string();
                push_decimal(&mut line, *n);
                line
            },
            Instr::PushImm(n) => {
                let mut line = "  push ".to_string();
                push_decimal(&mut line, *n);
                line
            },
            Instr::PushRax => "  push rax".to_string(),
            Instr::PushRdi => "  push rdi".to_string(),
            Instr::PopRax => "  pop rax".to_string(),
            Instr::PopRdi => "  pop rdi".to_string(),
            Instr::MovRaxRbp => "  mov rax, rbp".to_string(),
            Instr::SubRaxImm(n) => {
                let mut line = "  sub rax, ".to_string();
                push_decimal(&mut line, *n);
                line
            },
            Instr::Load => "  mov rax, [rax]".to_string(),
            Instr::Store => "  mov [rax], rdi".to_string(),
            Instr::Add => "   add rax, rdi".to_string(),
            Instr::Sub => "   sub rax, rdi".to_string(),
            Instr::Imul => "   imul rax, rdi".to_string(),
            Instr::Cqo => "  cqo".to_string(),
            Instr::Idiv => "  idiv rdi".to_string(),
            Instr::Compare => "  cmp rax, rdi".to_string(),
            Instr::SetE => "  sete al".to_string(),
            Instr::SetNe => "  setne al".to_string(),
            Instr::SetL => "  setl al".to_string(),
            Instr::SetLe => "  setle al".to_string(),
            Instr::Movzb => "  movzb rax, al".to_string(),
            Instr::Ret => "  ret".to_string(),
        }
    }
}

/// The text of a listing: every line followed by a line break.
pub open spec fn listing(code: Seq<Instr>) -> Seq<char>
    decreases code.len(),
{
    if code.len() == 0 {
        Seq::empty()
    } else {
        listing(code.drop_last()) + code.last().text() + seq!['\n']
    }
}

/// Renders a listing, one line per element.
pub fn assembly(code: &Vec<Instr>) -> (text: String)
    ensures
        text@ == listing(code@),
{
    let mut text = String::new();
    let mut i: usize = 0;
    while i < code.len()
        invariant
            i <= code.len(),
            text@ == listing(code@.take(i as int)),
        decreases code.len() - i,
    {
        let line = code[i].to_text();
        proof {
            assert(code@.take(i + 1).drop_last() =~= code@.take(i as int));
        }
        text.append(line.as_str());
        text.push('\n');
        i += 1;
    }
    proof {
        assert(code@.take(i as int) =~= code@);
    }
    text
}

} // verus!
