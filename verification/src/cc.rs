//! The data model shared by the scanner, the parser and the code generator:
//! tokens, syntax tree nodes and the program list.

use vstd::prelude::*;

verus! {

/// The kind of a syntax tree node.
#[derive(Debug, PartialEq, Eq, Clone, Copy, Structural)]
pub enum NodeKind {
    /// `+`
    NdAdd,
    /// `-`
    NdSub,
    /// `*`
    NdMul,
    /// `/`
    NdDiv,
    /// `=`
    NdAssign,
    /// A single-letter variable.
    NdLvar,
    /// `==`
    NdEq,
    /// `!=`
    NdNe,
    /// `<`
    NdLt,
    /// `<=`
    NdLe,
    /// An integer literal.
    NdNum,
}

impl NodeKind {
    /// The kinds that take a left and a right operand.
    pub open spec fn is_binary(self) -> bool {
        self != NodeKind::NdNum && self != NodeKind::NdLvar
    }

    /// The four comparison kinds.
    pub open spec fn is_comparison(self) -> bool {
        self == NodeKind::NdEq || self == NodeKind::NdNe || self == NodeKind::NdLt || self
            == NodeKind::NdLe
    }
}

/// One vertex of the syntax tree. A node owns its children.
#[derive(Debug, PartialEq, Eq)]
pub struct Node {
    /// What the node stands for.
    pub kind: NodeKind,
    /// Left operand, present on binary kinds.
    pub lhs: Option<Box<Node>>,
    /// Right operand, present on binary kinds.
    pub rhs: Option<Box<Node>>,
    /// The literal, present on `NdNum`.
    pub val: Option<i32>,
    /// Distance of the variable's slot below the frame base, present on `NdLvar`.
    pub offset: Option<i32>,
}

impl Node {
    /// The shape every node built by the parser has: a number carries its
    /// value and nothing else, a variable its offset and nothing else, and a
    /// binary node exactly its two operands, themselves well formed.
    pub open spec fn well_formed(self) -> bool
        decreases self,
    {
        match self.kind {
            NodeKind::NdNum => self.val is Some && self.offset is None && self.lhs is None
                && self.rhs is None,
            NodeKind::NdLvar => self.offset is Some && self.val is None && self.lhs is None
                && self.rhs is None,
            _ => self.val is None && self.offset is None && (match (self.lhs, self.rhs) {
                (Some(l), Some(r)) => l.well_formed() && r.well_formed(),
                _ => false,
            }),
        }
    }
}

impl Clone for Node {
    /// A deep copy: the copy owns copies of the children.
    fn clone(&self) -> (copy: Node)
        ensures
            copy == *self,
        decreases self,
    {
        let lhs = match &self.lhs {
            Some(child) => Some(Box::new((&**child).clone())),
            None => None,
        };
        let rhs = match &self.rhs {
            Some(child) => Some(Box::new((&**child).clone())),
            None => None,
        };
        Node { kind: self.kind, lhs, rhs, val: self.val, offset: self.offset }
    }
}

/// The tree of an integer literal.
pub open spec fn num_node(val: i32) -> Node {
    Node { kind: NodeKind::NdNum, lhs: None, rhs: None, val: Some(val), offset: None }
}

/// The tree of a variable whose slot lies `offset` below the frame base.
pub open spec fn lvar_node(offset: Option<i32>) -> Node {
    Node { kind: NodeKind::NdLvar, lhs: None, rhs: None, val: None, offset }
}

/// The tree of a binary operation.
pub open spec fn binary_node(kind: NodeKind, lhs: Node, rhs: Node) -> Node {
    Node { kind, lhs: Some(Box::new(lhs)), rhs: Some(Box::new(rhs)), val: None, offset: None }
}

/// The statements of a program in source order, closed by one `None`.
pub open spec fn is_program(code: Seq<Option<Box<Node>>>) -> bool {
    &&& code.len() >= 1
    &&& code.last() is None
    &&& forall|i: int| 0 <= i < code.len() - 1 ==> (#[trigger] code[i]) is Some
}

/// The classes of lexical units.
#[derive(Debug, PartialEq, Eq, Clone, Copy, Structural)]
pub enum TokenKind {
    /// An operator or a punctuation mark.
    TkReserved,
    /// An identifier.
    TkIndent,
    /// An integer literal.
    TkNum,
    /// The end of the input.
    TkEof,
}

/// One lexical unit, linked to the unit that follows it.
#[derive(Debug, PartialEq, Eq)]
pub struct Token {
    /// The class of the unit.
    pub kind: TokenKind,
    /// The unit that follows, `None` at the end of the list.
    pub next: Option<Box<Token>>,
    /// The value of an integer literal.
    pub val: Option<i32>,
    /// The characters of the unit; empty at the end of the input.
    pub str: String,
    /// Where the unit starts in the source, counted in characters from 1.
    pub pos: usize,
    /// How many characters the unit spans.
    pub len: usize,
}

impl Default for Token {
    /// An end-of-input token at position 0 with nothing after it.
    fn default() -> (t: Token)
        ensures
            t.kind == TokenKind::TkEof,
            t.next is None,
            t.val is None,
            t.str@ == Seq::<char>::empty(),
            t.pos == 0,
            t.len == 0,
    {
        Token { kind: TokenKind::TkEof, next: None, val: None, str: String::new(), pos: 0, len: 0 }
    }
}

/// What one token says, apart from its link.
pub struct Lexeme {
    pub kind: TokenKind,
    pub val: Option<i32>,
    pub text: Seq<char>,
    pub pos: nat,
    pub len: nat,
}

impl Token {
    /// The token without its link.
    pub open spec fn lexeme(self) -> Lexeme {
        Lexeme {
            kind: self.kind,
            val: self.val,
            text: self.str@,
            pos: self.pos as nat,
            len: self.len as nat,
        }
    }
}

/// The tokens of a list, from the one under the cursor to the last.
pub open spec fn token_seq(token: Option<Box<Token>>) -> Seq<Lexeme>
    decreases token,
{
    match token {
        None => Seq::empty(),
        Some(t) => seq![t.lexeme()] + token_seq(t.next),
    }
}

/// A list holds as many tokens as there are links to follow.
pub proof fn lemma_token_seq_some(t: Box<Token>)
    ensures
        token_seq(Some(t)).len() == 1 + token_seq(t.next).len(),
        token_seq(Some(t))[0] == t.lexeme(),
        token_seq(Some(t)).skip(1) == token_seq(t.next),
{
    assert(token_seq(Some(t)).skip(1) =~= token_seq(t.next));
}

} // verus!
