//! The parser: recursive descent over the token list.
//!
//! ```text
//! program    = statement*
//! statement  = expression ";"
//! expression = assignment
//! assignment = equality ("=" assignment)?
//! equality   = relational (("==" | "!=") relational)*
//! relational = additive (("<" | "<=" | ">" | ">=") additive)*
//! additive   = multiplicative (("+" | "-") multiplicative)*
//! multiplicative = unary (("*" | "/") unary)*
//! unary      = ("+" | "-")? unary | primary
//! primary    = NUMBER | IDENTIFIER | "(" expression ")"
//! ```
//!
//! The grammar is written twice: as spec functions on sequences of tokens
//! (`parse_*`), which say what each rule yields, and as executable functions
//! on the token list, each proved to yield just that.

use vstd::prelude::*;
use vstd::string::*;
use crate::cc::{
    Lexeme, Node, NodeKind, Token, TokenKind, binary_node, is_program, lemma_token_seq_some,
    lvar_node, num_node, token_seq,
};
use crate::error::{ParseError, ParseErrorView};
use crate::tokenize::{
    advance, at_number, at_symbol, expect, expect_number, head_is_symbol, is_symbol,
    number_error, scanned, symbol_error,
};

verus! {

broadcast use vstd::string::group_string_axioms;

/// What a grammar rule yields on a sequence of tokens: a tree or a failure,
/// and the tokens that are left.
pub struct Parsed {
    pub result: Result<Node, ParseErrorView>,
    pub rest: Seq<Lexeme>,
}

/// What the rule `program` yields: the trees of the statements in order, or
/// the first failure, and the tokens that are left.
pub struct ParsedProgram {
    pub result: Result<Seq<Node>, ParseErrorView>,
    pub rest: Seq<Lexeme>,
}

/// Whether the first of `tokens` is an identifier.
pub open spec fn at_ident(tokens: Seq<Lexeme>) -> bool {
    tokens.len() > 0 && tokens[0].kind == TokenKind::TkIndent
}

/// Whether the first of `tokens` marks the end of the input.
pub open spec fn at_end(tokens: Seq<Lexeme>) -> bool {
    tokens.len() > 0 && tokens[0].kind == TokenKind::TkEof
}

/// The slot of a variable: the distance of its first letter from `a`.
pub open spec fn letter_offset(name: Seq<char>) -> Option<i32> {
    if name.len() > 0 {
        Some((name[0] as int - 'a' as int) as i32)
    } else {
        None
    }
}

/// `primary = NUMBER | IDENTIFIER | "(" expression ")"`
pub open spec fn parse_primary(tokens: Seq<Lexeme>) -> Parsed
    decreases tokens.len(), 0nat,
{
    if at_symbol(tokens, "("@) {
        let inner = parse_expr(tokens.skip(1));
        if inner.result is Err {
            inner
        } else if at_symbol(inner.rest, ")"@) {
            Parsed { result: inner.result, rest: inner.rest.skip(1) }
        } else {
            Parsed { result: Err(symbol_error(inner.rest, ")"@)), rest: inner.rest }
        }
    } else if at_ident(tokens) {
        Parsed { result: Ok(lvar_node(letter_offset(tokens[0].text))), rest: tokens.skip(1) }
    } else if at_number(tokens) {
        Parsed { result: Ok(num_node(tokens[0].val->0)), rest: tokens.skip(1) }
    } else {
        Parsed { result: Err(number_error(tokens)), rest: tokens }
    }
}

/// `unary = ("+" | "-")? unary | primary`; a leading `-` yields `0 - operand`.
pub open spec fn parse_unary(tokens: Seq<Lexeme>) -> Parsed
    decreases tokens.len(), 1nat,
{
    if at_symbol(tokens, "+"@) {
        parse_unary(tokens.skip(1))
    } else if at_symbol(tokens, "-"@) {
        let operand = parse_unary(tokens.skip(1));
        match operand.result {
            Ok(node) => Parsed {
                result: Ok(binary_node(NodeKind::NdSub, num_node(0), node)),
                rest: operand.rest,
            },
            Err(_) => operand,
        }
    } else {
        parse_primary(tokens)
    }
}

/// Goes on with `next` from what `first` left, if `first` yielded a tree.
/// The test on the lengths holds of every rule of this grammar
/// ([`lemma_parse_expr`] and its companions); it is what lets the rules
/// be defined by recursion on the number of tokens.
pub open spec fn shorter(first: Parsed, tokens: Seq<Lexeme>) -> bool {
    first.result is Ok && first.rest.len() < tokens.len()
}

/// `(("*" | "/") unary)*` behind the operand `lhs`.
pub open spec fn parse_mul_tail(lhs: Node, tokens: Seq<Lexeme>) -> Parsed
    decreases tokens.len(), 2nat,
{
    if at_symbol(tokens, "*"@) {
        let rhs = parse_unary(tokens.skip(1));
        if shorter(rhs, tokens) {
            parse_mul_tail(binary_node(NodeKind::NdMul, lhs, rhs.result->Ok_0), rhs.rest)
        } else {
            rhs
        }
    } else if at_symbol(tokens, "/"@) {
        let rhs = parse_unary(tokens.skip(1));
        if shorter(rhs, tokens) {
            parse_mul_tail(binary_node(NodeKind::NdDiv, lhs, rhs.result->Ok_0), rhs.rest)
        } else {
            rhs
        }
    } else {
        Parsed { result: Ok(lhs), rest: tokens }
    }
}

/// `multiplicative = unary (("*" | "/") unary)*`, left-associative.
pub open spec fn parse_mul(tokens: Seq<Lexeme>) -> Parsed
    decreases tokens.len(), 3nat,
{
    let first = parse_unary(tokens);
    if shorter(first, tokens) {
        parse_mul_tail(first.result->Ok_0, first.rest)
    } else {
        first
    }
}

/// `(("+" | "-") multiplicative)*` behind the operand `lhs`.
pub open spec fn parse_add_tail(lhs: Node, tokens: Seq<Lexeme>) -> Parsed
    decreases tokens.len(), 4nat,
{
    if at_symbol(tokens, "+"@) {
        let rhs = parse_mul(tokens.skip(1));
        if shorter(rhs, tokens) {
            parse_add_tail(binary_node(NodeKind::NdAdd, lhs, rhs.result->Ok_0), rhs.rest)
        } else {
            rhs
        }
    } else if at_symbol(tokens, "-"@) {
        let rhs = parse_mul(tokens.skip(1));
        if shorter(rhs, tokens) {
            parse_add_tail(binary_node(NodeKind::NdSub, lhs, rhs.result->Ok_0), rhs.rest)
        } else {
            rhs
        }
    } else {
        Parsed { result: Ok(lhs), rest: tokens }
    }
}

/// `additive = multiplicative (("+" | "-") multiplicative)*`, left-associative.
pub open spec fn parse_add(tokens: Seq<Lexeme>) -> Parsed
    decreases tokens.len(), 5nat,
{
    let first = parse_mul(tokens);
    if shorter(first, tokens) {
        parse_add_tail(first.result->Ok_0, first.rest)
    } else {
        first
    }
}

/// `(("<" | "<=" | ">" | ">=") additive)*` behind the operand `lhs`.
/// `a > b` yields the tree of `b < a`, and `a >= b` that of `b <= a`.
pub open spec fn parse_relational_tail(lhs: Node, tokens: Seq<Lexeme>) -> Parsed
    decreases tokens.len(), 6nat,
{
    if at_symbol(tokens, "<"@) {
        let rhs = parse_add(tokens.skip(1));
        if shorter(rhs, tokens) {
            parse_relational_tail(binary_node(NodeKind::NdLt, lhs, rhs.result->Ok_0), rhs.rest)
        } else {
            rhs
        }
    } else if at_symbol(tokens, "<="@) {
        let rhs = parse_add(tokens.skip(1));
        if shorter(rhs, tokens) {
            parse_relational_tail(binary_node(NodeKind::NdLe, lhs, rhs.result->Ok_0), rhs.rest)
        } else {
            rhs
        }
    } else if at_symbol(tokens, ">"@) {
        let rhs = parse_add(tokens.skip(1));
        if shorter(rhs, tokens) {
            parse_relational_tail(binary_node(NodeKind::NdLt, rhs.result->Ok_0, lhs), rhs.rest)
        } else {
            rhs
        }
    } else if at_symbol(tokens, ">="@) {
        let rhs = parse_add(tokens.skip(1));
        if shorter(rhs, tokens) {
            parse_relational_tail(binary_node(NodeKind::NdLe, rhs.result->Ok_0, lhs), rhs.rest)
        } else {
            rhs
        }
    } else {
        Parsed { result: Ok(lhs), rest: tokens }
    }
}

/// `relational = additive (("<" | "<=" | ">" | ">=") additive)*`.
pub open spec fn parse_relational(tokens: Seq<Lexeme>) -> Parsed
    decreases tokens.len(), 7nat,
{
    let first = parse_add(tokens);
    if shorter(first, tokens) {
        parse_relational_tail(first.result->Ok_0, first.rest)
    } else {
        first
    }
}

/// `(("==" | "!=") relational)*` behind the operand `lhs`.
pub open spec fn parse_equality_tail(lhs: Node, tokens: Seq<Lexeme>) -> Parsed
    decreases tokens.len(), 8nat,
{
    if at_symbol(tokens, "=="@) {
        let rhs = parse_relational(tokens.skip(1));
        if shorter(rhs, tokens) {
            parse_equality_tail(binary_node(NodeKind::NdEq, lhs, rhs.result->Ok_0), rhs.rest)
        } else {
            rhs
        }
    } else if at_symbol(tokens, "!="@) {
        let rhs = parse_relational(tokens.skip(1));
        if shorter(rhs, tokens) {
            parse_equality_tail(binary_node(NodeKind::NdNe, lhs, rhs.result->Ok_0), rhs.rest)
        } else {
            rhs
        }
    } else {
        Parsed { result: Ok(lhs), rest: tokens }
    }
}

/// `equality = relational (("==" | "!=") relational)*`.
pub open spec fn parse_equality(tokens: Seq<Lexeme>) -> Parsed
    decreases tokens.len(), 9nat,
{
    let first = parse_relational(tokens);
    if shorter(first, tokens) {
        parse_equality_tail(first.result->Ok_0, first.rest)
    } else {
        first
    }
}

/// `assignment = equality ("=" assignment)?`, right-associative.
pub open spec fn parse_assign(tokens: Seq<Lexeme>) -> Parsed
    decreases tokens.len(), 10nat,
{
    let target = parse_equality(tokens);
    if shorter(target, tokens) && at_symbol(target.rest, "="@) {
        let value = parse_assign(target.rest.skip(1));
        match value.result {
            Ok(node) => Parsed {
                result: Ok(binary_node(NodeKind::NdAssign, target.result->Ok_0, node)),
                rest: value.rest,
            },
            Err(_) => value,
        }
    } else {
        target
    }
}

/// `expression = assignment`
pub open spec fn parse_expr(tokens: Seq<Lexeme>) -> Parsed
    decreases tokens.len(), 11nat,
{
    parse_assign(tokens)
}

/// `statement = expression ";"`
pub open spec fn parse_stmt(tokens: Seq<Lexeme>) -> Parsed {
    let value = parse_expr(tokens);
    if value.result is Err {
        value
    } else if at_symbol(value.rest, ";"@) {
        Parsed { result: value.result, rest: value.rest.skip(1) }
    } else {
        Parsed { result: Err(symbol_error(value.rest, ";"@)), rest: value.rest }
    }
}

/// `program = statement*`, up to the end-of-input token.
pub open spec fn parse_program(tokens: Seq<Lexeme>) -> ParsedProgram
    decreases tokens.len(),
{
    if at_end(tokens) {
        ParsedProgram { result: Ok(Seq::empty()), rest: tokens }
    } else {
        let first = parse_stmt(tokens);
        match first.result {
            Ok(node) => {
                if first.rest.len() < tokens.len() {
                    let others = parse_program(first.rest);
                    match others.result {
                        Ok(nodes) => ParsedProgram {
                            result: Ok(seq![node] + nodes),
                            rest: others.rest,
                        },
                        Err(_) => others,
                    }
                } else {
                    ParsedProgram { result: Ok(seq![node]), rest: first.rest }
                }
            },
            Err(e) => ParsedProgram { result: Err(e), rest: first.rest },
        }
    }
}

/// Every identifier among `tokens` has a name. The scanner yields no other.
pub open spec fn named(tokens: Seq<Lexeme>) -> bool {
    forall|i: int|
        0 <= i < tokens.len() && (#[trigger] tokens[i]).kind == TokenKind::TkIndent
            ==> tokens[i].text.len() > 0
}

/// What holds of a rule that parses an expression: it never hands back
/// more tokens than it was given, and fewer where it yields a tree; where
/// every identifier has a name, the tree is well formed.
pub open spec fn advances(p: Parsed, tokens: Seq<Lexeme>) -> bool {
    &&& p.rest.len() <= tokens.len()
    &&& p.result is Ok ==> p.rest.len() < tokens.len()
    &&& named(tokens) ==> named(p.rest) && (p.result is Ok ==> p.result->Ok_0.well_formed())
}

/// What holds of a rule that goes on behind a left operand: it never hands
/// back more tokens than it was given; where every identifier has a name
/// and the left operand is well formed, so is the tree.
pub open spec fn continues(p: Parsed, lhs: Node, tokens: Seq<Lexeme>) -> bool {
    &&& p.rest.len() <= tokens.len()
    &&& named(tokens) ==> named(p.rest) && (p.result is Ok && lhs.well_formed()
        ==> p.result->Ok_0.well_formed())
}

/// `primary` uses up at least one token where it yields a tree, and the
/// tree is well formed.
pub proof fn lemma_parse_primary(tokens: Seq<Lexeme>)
    ensures
        advances(parse_primary(tokens), tokens),
    decreases tokens.len(), 0nat,
{
    if at_symbol(tokens, "("@) {
        lemma_parse_expr(tokens.skip(1));
    }
}

/// `unary` uses up at least one token where it yields a tree, and the tree
/// is well formed.
pub proof fn lemma_parse_unary(tokens: Seq<Lexeme>)
    ensures
        advances(parse_unary(tokens), tokens),
    decreases tokens.len(), 1nat,
{
    reveal_with_fuel(Node::well_formed, 2);
    if at_symbol(tokens, "+"@) || at_symbol(tokens, "-"@) {
        lemma_parse_unary(tokens.skip(1));
    } else {
        lemma_parse_primary(tokens);
    }
}

/// The operators of this level leave no more tokens than they were given,
/// and build well-formed trees from well-formed operands.
pub proof fn lemma_parse_mul_tail(lhs: Node, tokens: Seq<Lexeme>)
    ensures
        continues(parse_mul_tail(lhs, tokens), lhs, tokens),
    decreases tokens.len(), 2nat,
{
    if at_symbol(tokens, "*"@) || at_symbol(tokens, "/"@) {
        lemma_parse_unary(tokens.skip(1));
        let rhs = parse_unary(tokens.skip(1));
        if at_symbol(tokens, "*"@) {
            if shorter(rhs, tokens) {
                lemma_parse_mul_tail(binary_node(NodeKind::NdMul, lhs, rhs.result->Ok_0), rhs.rest);
            }
        } else if at_symbol(tokens, "/"@) {
            if shorter(rhs, tokens) {
                lemma_parse_mul_tail(binary_node(NodeKind::NdDiv, lhs, rhs.result->Ok_0), rhs.rest);
            }
        }
    }
}

/// This level uses up at least one token where it yields a tree, and the
/// tree is well formed.
pub proof fn lemma_parse_mul(tokens: Seq<Lexeme>)
    ensures
        advances(parse_mul(tokens), tokens),
    decreases tokens.len(), 3nat,
{
    lemma_parse_unary(tokens);
    let first = parse_unary(tokens);
    if shorter(first, tokens) {
        lemma_parse_mul_tail(first.result->Ok_0, first.rest);
    }
}

/// The operators of this level leave no more tokens than they were given,
/// and build well-formed trees from well-formed operands.
pub proof fn lemma_parse_add_tail(lhs: Node, tokens: Seq<Lexeme>)
    ensures
        continues(parse_add_tail(lhs, tokens), lhs, tokens),
    decreases tokens.len(), 4nat,
{
    if at_symbol(tokens, "+"@) || at_symbol(tokens, "-"@) {
        lemma_parse_mul(tokens.skip(1));
        let rhs = parse_mul(tokens.skip(1));
        if at_symbol(tokens, "+"@) {
            if shorter(rhs, tokens) {
                lemma_parse_add_tail(binary_node(NodeKind::NdAdd, lhs, rhs.result->Ok_0), rhs.rest);
            }
        } else if at_symbol(tokens, "-"@) {
            if shorter(rhs, tokens) {
                lemma_parse_add_tail(binary_node(NodeKind::NdSub, lhs, rhs.result->Ok_0), rhs.rest);
            }
        }
    }
}

/// This level uses up at least one token where it yields a tree, and the
/// tree is well formed.
pub proof fn lemma_parse_add(tokens: Seq<Lexeme>)
    ensures
        advances(parse_add(tokens), tokens),
    decreases tokens.len(), 5nat,
{
    lemma_parse_mul(tokens);
    let first = parse_mul(tokens);
    if shorter(first, tokens) {
        lemma_parse_add_tail(first.result->Ok_0, first.rest);
    }
}

/// The operators of this level leave no more tokens than they were given,
/// and build well-formed trees from well-formed operands.
pub proof fn lemma_parse_relational_tail(lhs: Node, tokens: Seq<Lexeme>)
    ensures
        continues(parse_relational_tail(lhs, tokens), lhs, tokens),
    decreases tokens.len(), 6nat,
{
    if at_symbol(tokens, "<"@) || at_symbol(tokens, "<="@) || at_symbol(tokens, ">"@) || at_symbol(tokens, ">="@) {
        lemma_parse_add(tokens.skip(1));
        let rhs = parse_add(tokens.skip(1));
        if at_symbol(tokens, "<"@) {
            if shorter(rhs, tokens) {
                lemma_parse_relational_tail(binary_node(NodeKind::NdLt, lhs, rhs.result->Ok_0), rhs.rest);
            }
        } else if at_symbol(tokens, "<="@) {
            if shorter(rhs, tokens) {
                lemma_parse_relational_tail(binary_node(NodeKind::NdLe, lhs, rhs.result->Ok_0), rhs.rest);
            }
        } else if at_symbol(tokens, ">"@) {
            if shorter(rhs, tokens) {
                lemma_parse_relational_tail(binary_node(NodeKind::NdLt, rhs.result->Ok_0, lhs), rhs.rest);
            }
        } else if at_symbol(tokens, ">="@) {
            if shorter(rhs, tokens) {
                lemma_parse_relational_tail(binary_node(NodeKind::NdLe, rhs.result->Ok_0, lhs), rhs.rest);
            }
        }
    }
}

/// This level uses up at least one token where it yields a tree, and the
/// tree is well formed.
pub proof fn lemma_parse_relational(tokens: Seq<Lexeme>)
    ensures
        advances(parse_relational(tokens), tokens),
    decreases tokens.len(), 7nat,
{
    lemma_parse_add(tokens);
    let first = parse_add(tokens);
    if shorter(first, tokens) {
        lemma_parse_relational_tail(first.result->Ok_0, first.rest);
    }
}

/// The operators of this level leave no more tokens than they were given,
/// and build well-formed trees from well-formed operands.
pub proof fn lemma_parse_equality_tail(lhs: Node, tokens: Seq<Lexeme>)
    ensures
        continues(parse_equality_tail(lhs, tokens), lhs, tokens),
    decreases tokens.len(), 8nat,
{
    if at_symbol(tokens, "=="@) || at_symbol(tokens, "!="@) {
        lemma_parse_relational(tokens.skip(1));
        let rhs = parse_relational(tokens.skip(1));
        if at_symbol(tokens, "=="@) {
            if shorter(rhs, tokens) {
                lemma_parse_equality_tail(binary_node(NodeKind::NdEq, lhs, rhs.result->Ok_0), rhs.rest);
            }
        } else if at_symbol(tokens, "!="@) {
            if shorter(rhs, tokens) {
                lemma_parse_equality_tail(binary_node(NodeKind::NdNe, lhs, rhs.result->Ok_0), rhs.rest);
            }
        }
    }
}

/// This level uses up at least one token where it yields a tree, and the
/// tree is well formed.
pub proof fn lemma_parse_equality(tokens: Seq<Lexeme>)
    ensures
        advances(parse_equality(tokens), tokens),
    decreases tokens.len(), 9nat,
{
    lemma_parse_relational(tokens);
    let first = parse_relational(tokens);
    if shorter(first, tokens) {
        lemma_parse_equality_tail(first.result->Ok_0, first.rest);
    }
}

/// `assignment` uses up at least one token where it yields a tree, and the
/// tree is well formed.
pub proof fn lemma_parse_assign(tokens: Seq<Lexeme>)
    ensures
        advances(parse_assign(tokens), tokens),
    decreases tokens.len(), 10nat,
{
    lemma_parse_equality(tokens);
    let target = parse_equality(tokens);
    if shorter(target, tokens) && at_symbol(target.rest, "="@) {
        lemma_parse_assign(target.rest.skip(1));
    }
}

/// `expression` uses up at least one token where it yields a tree, and the
/// tree is well formed.
pub proof fn lemma_parse_expr(tokens: Seq<Lexeme>)
    ensures
        advances(parse_expr(tokens), tokens),
    decreases tokens.len(), 11nat,
{
    lemma_parse_assign(tokens);
}

/// `statement` uses up at least two tokens where it yields a tree, and the
/// tree is well formed.
pub proof fn lemma_parse_stmt(tokens: Seq<Lexeme>)
    ensures
        advances(parse_stmt(tokens), tokens),
        parse_stmt(tokens).result is Ok ==> parse_stmt(tokens).rest.len() + 2 <= tokens.len(),
{
    lemma_parse_expr(tokens);
}

/// Every tree of a parsed program is well formed, where every identifier
/// has a name.
pub proof fn lemma_parse_program(tokens: Seq<Lexeme>)
    ensures
        parse_program(tokens).rest.len() <= tokens.len(),
        named(tokens) ==> named(parse_program(tokens).rest),
        named(tokens) ==> (parse_program(tokens).result matches Ok(nodes) ==> forall|i: int|
            0 <= i < nodes.len() ==> (#[trigger] nodes[i]).well_formed()),
    decreases tokens.len(),
{
    if !at_end(tokens) {
        lemma_parse_stmt(tokens);
        let first = parse_stmt(tokens);
        if first.result is Ok && first.rest.len() < tokens.len() {
            lemma_parse_program(first.rest);
        }
    }
}

/// Tokens as the scanner yields them have a name on every identifier.
pub proof fn lemma_scanned_tokens_are_named(tokens: Seq<Lexeme>)
    requires
        forall|k: int| 0 <= k < tokens.len() ==> scanned(#[trigger] tokens[k]),
    ensures
        named(tokens),
{
}

/// Behind a token that is no operator every level of binary operators
/// stops and hands its left operand back.
proof fn lemma_tails_stop(lhs: Node, tokens: Seq<Lexeme>)
    requires
        tokens.len() > 0,
        tokens[0].kind != TokenKind::TkReserved,
    ensures
        parse_mul_tail(lhs, tokens) == (Parsed { result: Ok(lhs), rest: tokens }),
        parse_add_tail(lhs, tokens) == (Parsed { result: Ok(lhs), rest: tokens }),
        parse_relational_tail(lhs, tokens) == (Parsed { result: Ok(lhs), rest: tokens }),
        parse_equality_tail(lhs, tokens) == (Parsed { result: Ok(lhs), rest: tokens }),
        !at_symbol(tokens, "="@),
{
}

/// A comparison sign is no arithmetic operator.
proof fn lemma_comparison_sign_is_no_arithmetic(sign: Lexeme, strict: bool, greater: bool)
    requires
        is_symbol(sign, comparison_sign(strict, greater)),
    ensures
        !is_symbol(sign, "*"@),
        !is_symbol(sign, "/"@),
        !is_symbol(sign, "+"@),
        !is_symbol(sign, "-"@),
        is_symbol(sign, "<"@) <==> strict && !greater,
        is_symbol(sign, "<="@) <==> !strict && !greater,
        is_symbol(sign, ">"@) <==> strict && greater,
        is_symbol(sign, ">="@) <==> !strict && greater,
{
    reveal_strlit("*");
    reveal_strlit("/");
    reveal_strlit("+");
    reveal_strlit("-");
    reveal_strlit("<");
    reveal_strlit("<=");
    reveal_strlit(">");
    reveal_strlit(">=");
    let text = comparison_sign(strict, greater);
    assert(text.len() >= 1);
    assert("<"@[0] == '<' && ">"@[0] == '>' && "<="@[0] == '<' && ">="@[0] == '>');
    assert("*"@[0] == '*' && "/"@[0] == '/' && "+"@[0] == '+' && "-"@[0] == '-');
}

/// An integer literal in front of a token that is no arithmetic operator
/// is a whole additive expression.
proof fn lemma_literal_is_additive(tokens: Seq<Lexeme>)
    requires
        at_number(tokens),
        tokens.len() >= 2,
        !is_symbol(tokens[1], "*"@),
        !is_symbol(tokens[1], "/"@),
        !is_symbol(tokens[1], "+"@),
        !is_symbol(tokens[1], "-"@),
    ensures
        parse_add(tokens) == (Parsed {
            result: Ok(num_node(tokens[0].val->0)),
            rest: tokens.skip(1),
        }),
{
    let literal = Parsed { result: Ok(num_node(tokens[0].val->0)), rest: tokens.skip(1) };
    let rest = tokens.skip(1);
    assert(rest[0] == tokens[1]);
    assert(parse_primary(tokens) == literal);
    assert(parse_unary(tokens) == literal);
    assert(parse_mul_tail(num_node(tokens[0].val->0), rest) == literal);
    assert(parse_mul(tokens) == literal);
    assert(parse_add_tail(num_node(tokens[0].val->0), rest) == literal);
}

/// The four comparison signs: `<`, `<=`, `>`, `>=`.
pub open spec fn comparison_sign(strict: bool, greater: bool) -> Seq<char> {
    if strict {
        if greater {
            ">"@
        } else {
            "<"@
        }
    } else {
        if greater {
            ">="@
        } else {
            "<="@
        }
    }
}

/// The tree of a comparison of two integer literals, written with the
/// sign `sign` between them and followed by a token that is no operator.
proof fn lemma_literal_comparison(
    a: Lexeme,
    sign: Lexeme,
    b: Lexeme,
    rest: Seq<Lexeme>,
    strict: bool,
    greater: bool,
)
    requires
        at_number(seq![a]),
        at_number(seq![b]),
        is_symbol(sign, comparison_sign(strict, greater)),
        rest.len() > 0,
        rest[0].kind != TokenKind::TkReserved,
    ensures
        parse_expr(seq![a, sign, b] + rest) == (Parsed {
            result: Ok(
                if greater {
                    binary_node(
                        if strict {
                            NodeKind::NdLt
                        } else {
                            NodeKind::NdLe
                        },
                        num_node(b.val->0),
                        num_node(a.val->0),
                    )
                } else {
                    binary_node(
                        if strict {
                            NodeKind::NdLt
                        } else {
                            NodeKind::NdLe
                        },
                        num_node(a.val->0),
                        num_node(b.val->0),
                    )
                },
            ),
            rest,
        }),
{
    let tokens = seq![a, sign, b] + rest;
    let behind_a = tokens.skip(1);
    let behind_sign = behind_a.skip(1);
    let kind = if strict {
        NodeKind::NdLt
    } else {
        NodeKind::NdLe
    };
    let left = num_node(a.val->0);
    let right = num_node(b.val->0);
    let tree = if greater {
        binary_node(kind, right, left)
    } else {
        binary_node(kind, left, right)
    };
    assert(tokens[0] == a && tokens[1] == sign && tokens[2] == b);
    assert(behind_a[0] == sign);
    assert(behind_sign[0] == b && behind_sign[1] == rest[0]);
    assert(behind_sign.skip(1) =~= rest);
    lemma_comparison_sign_is_no_arithmetic(sign, strict, greater);
    lemma_literal_is_additive(tokens);
    lemma_tails_stop(right, rest);
    lemma_literal_is_additive(behind_sign);
    lemma_tails_stop(tree, rest);
    assert(parse_add(behind_sign) == (Parsed { result: Ok(right), rest }));
    assert(parse_relational_tail(left, behind_a) == (Parsed { result: Ok(tree), rest }));
    assert(parse_relational(tokens) == (Parsed { result: Ok(tree), rest }));
    assert(parse_equality(tokens) == (Parsed { result: Ok(tree), rest }));
    assert(parse_assign(tokens) == (Parsed { result: Ok(tree), rest }));
}

/// `>` and `>=` are written as `<` and `<=` with the operands swapped:
/// for all integer literals `a` and `b`, `a > b` has the tree of `b < a`
/// and `a >= b` has the tree of `b <= a`, so the two forms lower to the
/// same code. The literals may stand anywhere in the text; what follows
/// them is a token that is no operator, such as the end of the input.
pub proof fn lemma_greater_is_swapped_less(
    a: Lexeme,
    b: Lexeme,
    greater: Lexeme,
    less: Lexeme,
    rest: Seq<Lexeme>,
    strict: bool,
)
    requires
        at_number(seq![a]),
        at_number(seq![b]),
        is_symbol(greater, comparison_sign(strict, true)),
        is_symbol(less, comparison_sign(strict, false)),
        rest.len() > 0,
        rest[0].kind != TokenKind::TkReserved,
    ensures
        parse_expr(seq![a, greater, b] + rest) == parse_expr(seq![b, less, a] + rest),
        parse_expr(seq![a, greater, b] + rest).result == Ok::<Node, ParseErrorView>(
            binary_node(
                if strict {
                    NodeKind::NdLt
                } else {
                    NodeKind::NdLe
                },
                num_node(b.val->0),
                num_node(a.val->0),
            ),
        ),
{
    lemma_literal_comparison(a, greater, b, rest, strict, true);
    lemma_literal_comparison(b, less, a, rest, strict, false);
}

/// The list of a program is a program: trees in order, closed by one `None`.
pub proof fn lemma_program_list_is_program(nodes: Seq<Node>)
    ensures
        is_program(program_list(nodes)),
        program_list(nodes).len() == nodes.len() + 1,
        forall|i: int| 0 <= i < nodes.len() ==> #[trigger] program_list(nodes)[i] == Some(
            Box::new(nodes[i]),
        ),
{
}

/// Whether what an executable rule returned, and where it left the cursor,
/// is what the grammar yields.
pub open spec fn yields(
    r: Result<Box<Node>, ParseError>,
    left: Option<Box<Token>>,
    p: Parsed,
) -> bool {
    &&& token_seq(left) == p.rest
    &&& match r {
        Ok(node) => p.result == Ok::<Node, ParseErrorView>(*node),
        Err(e) => p.result == Err::<Node, ParseErrorView>(e@),
    }
}

/// Steps over the symbol `op` and says whether it was there. Where it was
/// not, the cursor stays.
pub fn consume(token: &mut Option<Box<Token>>, op: String) -> (r: bool)
    ensures
        r == at_symbol(token_seq(*old(token)), op@),
        r ==> token_seq(*final(token)) == token_seq(*old(token)).skip(1),
        !r ==> *final(token) == *old(token),
{
    if head_is_symbol(token, &op) {
        advance(token);
        true
    } else {
        false
    }
}

/// Steps over an identifier and hands it out, cut off from the list. Where
/// the token under the cursor is no identifier, the cursor stays.
pub fn consume_indent(token: &mut Option<Box<Token>>) -> (r: Option<Box<Token>>)
    ensures
        at_ident(token_seq(*old(token))) ==> r is Some && r->0.lexeme() == token_seq(
            *old(token),
        )[0] && r->0.next is None && token_seq(*final(token)) == token_seq(*old(token)).skip(1),
        !at_ident(token_seq(*old(token))) ==> r is None && *final(token) == *old(token),
{
    let found = match token {
        Some(t) => {
            proof {
                lemma_token_seq_some(*t);
            }
            t.kind == TokenKind::TkIndent
        },
        None => false,
    };
    if found {
        Some(advance(token))
    } else {
        None
    }
}

/// A node of the given kind with nothing attached.
pub fn new_node(kind: NodeKind) -> (node: Box<Node>)
    ensures
        *node == (Node { kind, lhs: None, rhs: None, val: None, offset: None }),
{
    Box::new(Node { kind, rhs: None, lhs: None, val: None, offset: None })
}

/// The node of the variable named `op`: its offset is the distance of the
/// first letter of `op` from `a`; without a letter there is no offset.
pub fn new_node_lvar(op: &str) -> (node: Box<Node>)
    ensures
        *node == lvar_node(letter_offset(op@)),
{
    let mut node = new_node(NodeKind::NdLvar);
    if op.unicode_len() > 0 {
        let first = op.get_char(0);
        node.offset = Some(first as u32 as i32 - 'a' as u32 as i32);
    } else {
        node.offset = None;
    }
    node
}

/// The node of a binary operation on two operands.
pub fn new_binary(kind: NodeKind, lhs: Box<Node>, rhs: Box<Node>) -> (node: Box<Node>)
    ensures
        *node == binary_node(kind, *lhs, *rhs),
{
    let mut node = new_node(kind);
    node.lhs = Some(lhs);
    node.rhs = Some(rhs);
    node
}

/// The node of an integer literal.
pub fn new_num(val: i32) -> (node: Box<Node>)
    ensures
        *node == num_node(val),
{
    let mut node = new_node(NodeKind::NdNum);
    node.val = Some(val);
    node
}

/// Whether the cursor stands on the end-of-input token. A cursor that has
/// run off the list does not.
pub fn at_eof(token: &Option<Box<Token>>) -> (r: bool)
    ensures
        r == at_end(token_seq(*token)),
{
    match token {
        Some(t) => {
            proof {
                lemma_token_seq_some(*t);
            }
            t.kind == TokenKind::TkEof
        },
        None => false,
    }
}

/// `assignment = equality ("=" assignment)?`
pub fn assign(token: &mut Option<Box<Token>>) -> (r: Result<Box<Node>, ParseError>)
    ensures
        yields(r, *final(token), parse_assign(token_seq(*old(token)))),
    decreases token_seq(*old(token)).len(), 10nat,
{
    proof {
        lemma_parse_equality(token_seq(*token));
    }
    let node = match equality(token) {
        Ok(node) => node,
        Err(e) => {
            return Err(e);
        },
    };
    if consume(token, "=".to_string()) {
        let value = match assign(token) {
            Ok(value) => value,
            Err(e) => {
                return Err(e);
            },
        };
        Ok(new_binary(NodeKind::NdAssign, node, value))
    } else {
        Ok(node)
    }
}

/// `expression = assignment`
pub fn expr(token: &mut Option<Box<Token>>) -> (r: Result<Box<Node>, ParseError>)
    ensures
        yields(r, *final(token), parse_expr(token_seq(*old(token)))),
    decreases token_seq(*old(token)).len(), 11nat,
{
    assign(token)
}

/// `statement = expression ";"`
pub fn stmt(token: &mut Option<Box<Token>>) -> (r: Result<Box<Node>, ParseError>)
    ensures
        yields(r, *final(token), parse_stmt(token_seq(*old(token)))),
{
    let node = match expr(token) {
        Ok(node) => node,
        Err(e) => {
            return Err(e);
        },
    };
    match expect(token, ";".to_string()) {
        Ok(()) => Ok(node),
        Err(e) => Err(e),
    }
}

/// The list that holds the trees `nodes` in order, closed by one `None`.
pub open spec fn program_list(nodes: Seq<Node>) -> Seq<Option<Box<Node>>> {
    Seq::new(
        nodes.len() + 1,
        |i: int|
            if i < nodes.len() {
                Some(Box::new(nodes[i]))
            } else {
                None
            },
    )
}

/// `statements` before the trees of `rest`; a failure in `rest` stays a failure.
pub open spec fn after_statements(statements: Seq<Node>, rest: ParsedProgram) -> ParsedProgram {
    match rest.result {
        Ok(nodes) => ParsedProgram { result: Ok(statements + nodes), rest: rest.rest },
        Err(_) => rest,
    }
}

/// `program = statement*`: parses statements until the cursor stands on the
/// end-of-input token, and returns their trees in order, closed by `None`.
/// The first failure ends the parse.
pub fn program(token: &mut Option<Box<Token>>) -> (r: Result<Vec<Option<Box<Node>>>, ParseError>)
    ensures
        token_seq(*final(token)) == parse_program(token_seq(*old(token))).rest,
        match r {
            Ok(code) => parse_program(token_seq(*old(token))).result is Ok && is_program(code@)
                && code@ == program_list(parse_program(token_seq(*old(token))).result->Ok_0),
            Err(e) => parse_program(token_seq(*old(token))).result == Err::<
                Seq<Node>,
                ParseErrorView,
            >(e@),
        },
{
    let ghost tokens = token_seq(*token);
    let ghost mut done: Seq<Node> = Seq::empty();
    let mut code: Vec<Option<Box<Node>>> = Vec::new();
    proof {
        if let Ok(nodes) = parse_program(tokens).result {
            assert(done + nodes =~= nodes);
        }
    }
    while !at_eof(token)
        invariant
            tokens == token_seq(*old(token)),
            parse_program(tokens) == after_statements(done, parse_program(token_seq(*token))),
            code@.len() == done.len(),
            forall|i: int| 0 <= i < done.len() ==> code@[i] == Some(Box::new(done[i])),
        decreases token_seq(*token).len(),
    {
        let ghost here = token_seq(*token);
        proof {
            lemma_parse_stmt(here);
        }
        let node = match stmt(token) {
            Ok(node) => node,
            Err(e) => {
                return Err(e);
            },
        };
        proof {
            if let Ok(nodes) = parse_program(token_seq(*token)).result {
                assert(done + (seq![*node] + nodes) =~= done.push(*node) + nodes);
            }
            done = done.push(*node);
        }
        code.push(Some(node));
    }
    code.push(None);
    proof {
        assert(done + Seq::<Node>::empty() =~= done);
        assert(code@ =~= program_list(done));
        lemma_program_list_is_program(done);
    }
    Ok(code)
}

/// `equality = relational (("==" | "!=") relational)*`
pub fn equality(token: &mut Option<Box<Token>>) -> (r: Result<Box<Node>, ParseError>)
    ensures
        yields(r, *final(token), parse_equality(token_seq(*old(token)))),
    decreases token_seq(*old(token)).len(), 9nat,
{
    let ghost tokens = token_seq(*token);
    proof {
        lemma_parse_relational(tokens);
    }
    let mut node = match relational(token) {
        Ok(node) => node,
        Err(e) => {
            return Err(e);
        },
    };
    loop
        invariant
            tokens == token_seq(*old(token)),
            token_seq(*token).len() < tokens.len(),
            parse_equality(tokens) == parse_equality_tail(*node, token_seq(*token)),
        decreases token_seq(*token).len(),
    {
        proof {
            if token_seq(*token).len() > 0 {
                lemma_parse_relational(token_seq(*token).skip(1));
            }
        }
        if consume(token, "==".to_string()) {
            let rhs = match relational(token) {
                Ok(rhs) => rhs,
                Err(e) => {
                    return Err(e);
                },
            };
            node = new_binary(NodeKind::NdEq, node, rhs);
        } else if consume(token, "!=".to_string()) {
            let rhs = match relational(token) {
                Ok(rhs) => rhs,
                Err(e) => {
                    return Err(e);
                },
            };
            node = new_binary(NodeKind::NdNe, node, rhs);
        } else {
            return Ok(node);
        }
    }
}

/// `relational = additive (("<" | "<=" | ">" | ">=") additive)*`; `>` and `>=`
/// swap their operands and build the nodes of `<` and `<=`.
pub fn relational(token: &mut Option<Box<Token>>) -> (r: Result<Box<Node>, ParseError>)
    ensures
        yields(r, *final(token), parse_relational(token_seq(*old(token)))),
    decreases token_seq(*old(token)).len(), 7nat,
{
    let ghost tokens = token_seq(*token);
    proof {
        lemma_parse_add(tokens);
    }
    let mut node = match self::add(token) {
        Ok(node) => node,
        Err(e) => {
            return Err(e);
        },
    };
    loop
        invariant
            tokens == token_seq(*old(token)),
            token_seq(*token).len() < tokens.len(),
            parse_relational(tokens) == parse_relational_tail(*node, token_seq(*token)),
        decreases token_seq(*token).len(),
    {
        proof {
            if token_seq(*token).len() > 0 {
                lemma_parse_add(token_seq(*token).skip(1));
            }
        }
        if consume(token, "<".to_string()) {
            let rhs = match self::add(token) {
                Ok(rhs) => rhs,
                Err(e) => {
                    return Err(e);
                },
            };
            node = new_binary(NodeKind::NdLt, node, rhs);
        } else if consume(token, "<=".to_string()) {
            let rhs = match self::add(token) {
                Ok(rhs) => rhs,
                Err(e) => {
                    return Err(e);
                },
            };
            node = new_binary(NodeKind::NdLe, node, rhs);
        } else if consume(token, ">".to_string()) {
            let rhs = match self::add(token) {
                Ok(rhs) => rhs,
                Err(e) => {
                    return Err(e);
                },
            };
            node = new_binary(NodeKind::NdLt, rhs, node);
        } else if consume(token, ">=".to_string()) {
            let rhs = match self::add(token) {
                Ok(rhs) => rhs,
                Err(e) => {
                    return Err(e);
                },
            };
            node = new_binary(NodeKind::NdLe, rhs, node);
        } else {
            return Ok(node);
        }
    }
}

/// `additive = multiplicative (("+" | "-") multiplicative)*`
pub fn add(token: &mut Option<Box<Token>>) -> (r: Result<Box<Node>, ParseError>)
    ensures
        yields(r, *final(token), parse_add(token_seq(*old(token)))),
    decreases token_seq(*old(token)).len(), 5nat,
{
    let ghost tokens = token_seq(*token);
    proof {
        lemma_parse_mul(tokens);
    }
    let mut node = match self::mul(token) {
        Ok(node) => node,
        Err(e) => {
            return Err(e);
        },
    };
    loop
        invariant
            tokens == token_seq(*old(token)),
            token_seq(*token).len() < tokens.len(),
            parse_add(tokens) == parse_add_tail(*node, token_seq(*token)),
        decreases token_seq(*token).len(),
    {
        proof {
            if token_seq(*token).len() > 0 {
                lemma_parse_mul(token_seq(*token).skip(1));
            }
        }
        if consume(token, "+".to_string()) {
            let rhs = match self::mul(token) {
                Ok(rhs) => rhs,
                Err(e) => {
                    return Err(e);
                },
            };
            node = new_binary(NodeKind::NdAdd, node, rhs);
        } else if consume(token, "-".to_string()) {
            let rhs = match self::mul(token) {
                Ok(rhs) => rhs,
                Err(e) => {
                    return Err(e);
                },
            };
            node = new_binary(NodeKind::NdSub, node, rhs);
        } else {
            return Ok(node);
        }
    }
}

/// `multiplicative = unary (("*" | "/") unary)*`
pub fn mul(token: &mut Option<Box<Token>>) -> (r: Result<Box<Node>, ParseError>)
    ensures
        yields(r, *final(token), parse_mul(token_seq(*old(token)))),
    decreases token_seq(*old(token)).len(), 3nat,
{
    let ghost tokens = token_seq(*token);
    proof {
        lemma_parse_unary(tokens);
    }
    let mut node = match unary(token) {
        Ok(node) => node,
        Err(e) => {
            return Err(e);
        },
    };
    loop
        invariant
            tokens == token_seq(*old(token)),
            token_seq(*token).len() < tokens.len(),
            parse_mul(tokens) == parse_mul_tail(*node, token_seq(*token)),
        decreases token_seq(*token).len(),
    {
        proof {
            if token_seq(*token).len() > 0 {
                lemma_parse_unary(token_seq(*token).skip(1));
            }
        }
        if consume(token, "*".to_string()) {
            let rhs = match unary(token) {
                Ok(rhs) => rhs,
                Err(e) => {
                    return Err(e);
                },
            };
            node = new_binary(NodeKind::NdMul, node, rhs);
        } else if consume(token, "/".to_string()) {
            let rhs = match unary(token) {
                Ok(rhs) => rhs,
                Err(e) => {
                    return Err(e);
                },
            };
            node = new_binary(NodeKind::NdDiv, node, rhs);
        } else {
            return Ok(node);
        }
    }
}

/// `unary = ("+" | "-")? unary | primary`: a leading `+` is dropped, a
/// leading `-` yields `0 - operand`.
pub fn unary(token: &mut Option<Box<Token>>) -> (r: Result<Box<Node>, ParseError>)
    ensures
        yields(r, *final(token), parse_unary(token_seq(*old(token)))),
    decreases token_seq(*old(token)).len(), 1nat,
{
    if consume(token, "+".to_string()) {
        return unary(token);
    }
    if consume(token, "-".to_string()) {
        let operand = match unary(token) {
            Ok(operand) => operand,
            Err(e) => {
                return Err(e);
            },
        };
        return Ok(new_binary(NodeKind::NdSub, new_num(0), operand));
    }
    primary(token)
}

/// `primary = NUMBER | IDENTIFIER | "(" expression ")"`
pub fn primary(token: &mut Option<Box<Token>>) -> (r: Result<Box<Node>, ParseError>)
    ensures
        yields(r, *final(token), parse_primary(token_seq(*old(token)))),
    decreases token_seq(*old(token)).len(), 0nat,
{
    if consume(token, "(".to_string()) {
        let node = match expr(token) {
            Ok(node) => node,
            Err(e) => {
                return Err(e);
            },
        };
        return match expect(token, ")".to_string()) {
            Ok(()) => Ok(node),
            Err(e) => Err(e),
        };
    }
    if let Some(ident) = consume_indent(token) {
        return Ok(new_node_lvar(ident.str.as_str()));
    }
    match expect_number(token) {
        Ok(val) => Ok(new_num(val)),
        Err(e) => Err(e),
    }
}

} // verus!
