//! The grammar of NovaWeb, as spec functions over tokens, and the parser that
//! follows it.
//!
//! Binary operators share one precedence and associate to the left. A prefix
//! operator applies to the primary expression that follows it; suffixes
//! (`.name`, `?.name`, `[index]`, `?[index]`, `(args)`) apply after it.
//! Semicolons after simple statements are optional.

use crate::ast::{
    group_ast_views, view_expr, view_exprs, view_opt_str, view_pairs, view_params, view_stmt,
    view_stmts, BinaryOp, Expr, ExprM, Literal, LitM, Stmt, StmtM, UnaryOp,
};
use std::rc::Rc;
use crate::text::{chars_of, concat};
use crate::value::{nat_text, nat_to_text};
use crate::lexer::{is_digit, lemma_lex_prefix_whole, lex, lex_prefix, tokenize, tokenize_prefix, view_token, view_tokens, Sym, Token, TokenM};
use vstd::prelude::*;

verus! {

broadcast use group_ast_views;

/// Why a text is not a program.
#[derive(Clone, Copy, PartialEq, Eq, Structural, Debug)]
pub enum ParseError {
    /// No token starts at this character position.
    Lex(usize),
    /// The token at this position does not fit the grammar.
    Syntax(usize),
    /// The integer literal at this token position does not fit in 64 bits.
    IntRange(usize),
}

/// The text by which a parse error is reported.
pub open spec fn parse_message(e: ParseError) -> Seq<char> {
    match e {
        ParseError::Lex(p) => "Unexpected character at position "@ + nat_text(p as nat),
        ParseError::Syntax(i) => "Unexpected token at position "@ + nat_text(i as nat),
        ParseError::IntRange(i) => "Integer literal out of range at token "@ + nat_text(i as nat),
    }
}

impl ParseError {
    /// The text by which the error is reported (see `parse_message`).
    pub fn message(&self) -> (r: String)
        ensures
            r@ == parse_message(*self),
    {
        match self {
            ParseError::Lex(p) => {
                let n = nat_to_text(*p as u64);
                concat("Unexpected character at position ", n.as_str())
            },
            ParseError::Syntax(i) => {
                let n = nat_to_text(*i as u64);
                concat("Unexpected token at position ", n.as_str())
            },
            ParseError::IntRange(i) => {
                let n = nat_to_text(*i as u64);
                concat("Integer literal out of range at token ", n.as_str())
            },
        }
    }
}

pub open spec fn syntax(i: int) -> ParseError {
    ParseError::Syntax(i as usize)
}

pub open spec fn sym_at(ts: Seq<TokenM>, i: int) -> Option<Sym> {
    if 0 <= i < ts.len() {
        match ts[i] {
            TokenM::Sym(s) => Some(s),
            _ => None,
        }
    } else {
        None
    }
}

pub open spec fn ident_at(ts: Seq<TokenM>, i: int) -> Option<Seq<char>> {
    if 0 <= i < ts.len() {
        match ts[i] {
            TokenM::Ident(s) => Some(s),
            _ => None,
        }
    } else {
        None
    }
}

pub open spec fn is_sym(ts: Seq<TokenM>, i: int, s: Sym) -> bool {
    sym_at(ts, i) == Some(s)
}

/// Past an optional `;`.
pub open spec fn skip_semi(ts: Seq<TokenM>, i: int) -> int {
    if is_sym(ts, i, Sym::Semi) {
        i + 1
    } else {
        i
    }
}

/// Whether every character is a decimal digit.
pub open spec fn is_digits(s: Seq<char>) -> bool {
    forall|j: int| 0 <= j < s.len() ==> is_digit(#[trigger] s[j])
}

/// The value of a string of decimal digits.
pub open spec fn digits_value(s: Seq<char>) -> int
    decreases s.len(),
{
    if s.len() == 0 {
        0
    } else {
        digits_value(s.drop_last()) * 10 + (s.last() as int - '0' as int)
    }
}

pub open spec fn binop_of(s: Sym) -> Option<BinaryOp> {
    match s {
        Sym::Plus => Some(BinaryOp::Add),
        Sym::Minus => Some(BinaryOp::Sub),
        Sym::Star => Some(BinaryOp::Mul),
        Sym::Slash => Some(BinaryOp::Div),
        Sym::EqEq => Some(BinaryOp::Eq),
        Sym::NotEq => Some(BinaryOp::Ne),
        Sym::Lt => Some(BinaryOp::Lt),
        Sym::Gt => Some(BinaryOp::Gt),
        Sym::Le => Some(BinaryOp::Le),
        Sym::Ge => Some(BinaryOp::Ge),
        Sym::AndAnd => Some(BinaryOp::And),
        Sym::OrOr => Some(BinaryOp::Or),
        _ => None,
    }
}

/// A type: a name, or names joined by `|` (kept as `a | b`).
pub open spec fn p_type(ts: Seq<TokenM>, i: int) -> Result<(Seq<char>, int), ParseError> {
    match ident_at(ts, i) {
        Some(n) => p_type_rest(ts, n, i + 1),
        None => Err(syntax(i)),
    }
}

pub open spec fn p_type_rest(ts: Seq<TokenM>, acc: Seq<char>, i: int) -> Result<(Seq<char>, int), ParseError>
    decreases ts.len() - i,
{
    if i >= 0 && is_sym(ts, i, Sym::Pipe) && ident_at(ts, i + 1) is Some {
        p_type_rest(ts, acc + " | "@ + ident_at(ts, i + 1).unwrap(), i + 2)
    } else {
        Ok((acc, i))
    }
}

/// An expression: operands joined by binary operators, grouped from the left.
pub open spec fn p_expr(ts: Seq<TokenM>, i: int) -> Result<(ExprM, int), ParseError>
    decreases ts.len() - i, 5int,
{
    if i < 0 || i > ts.len() {
        Err(syntax(i))
    } else {
        match p_operand(ts, i) {
            Err(x) => Err(x),
            Ok((e, j)) => if i < j <= ts.len() {
                p_rest(ts, e, j)
            } else {
                Err(syntax(i))
            },
        }
    }
}

pub open spec fn p_rest(ts: Seq<TokenM>, lhs: ExprM, i: int) -> Result<(ExprM, int), ParseError>
    decreases ts.len() - i, 3int,
{
    if i < 0 || i >= ts.len() {
        Ok((lhs, i))
    } else {
        match sym_at(ts, i) {
            Some(s) => match binop_of(s) {
                Some(op) => match p_operand(ts, i + 1) {
                    Err(x) => Err(x),
                    Ok((rhs, k)) => if i < k <= ts.len() {
                        p_rest(ts, ExprM::Binary(op, Box::new(lhs), Box::new(rhs)), k)
                    } else {
                        Err(syntax(i))
                    },
                },
                None => Ok((lhs, i)),
            },
            None => Ok((lhs, i)),
        }
    }
}

/// An optional `-` or `!`, a primary expression, and its suffixes.
pub open spec fn p_operand(ts: Seq<TokenM>, i: int) -> Result<(ExprM, int), ParseError>
    decreases ts.len() - i, 4int,
{
    if i < 0 || i > ts.len() {
        Err(syntax(i))
    } else {
        let first = if is_sym(ts, i, Sym::Minus) {
            match p_primary(ts, i + 1) {
                Ok((p, j)) => Ok((ExprM::Unary(UnaryOp::Neg, Box::new(p)), j)),
                Err(x) => Err(x),
            }
        } else if is_sym(ts, i, Sym::Bang) {
            match p_primary(ts, i + 1) {
                Ok((p, j)) => Ok((ExprM::Unary(UnaryOp::Not, Box::new(p)), j)),
                Err(x) => Err(x),
            }
        } else {
            p_primary(ts, i)
        };
        match first {
            Err(x) => Err(x),
            Ok((e, j)) => if i < j <= ts.len() {
                p_suffixes(ts, e, j)
            } else {
                Err(syntax(i))
            },
        }
    }
}

/// Suffixes applied from the left: `.name`, `?.name`, `[index]`, `?[index]`, `(args)`.
pub open spec fn p_suffixes(ts: Seq<TokenM>, e: ExprM, i: int) -> Result<(ExprM, int), ParseError>
    decreases ts.len() - i, 1int,
{
    if i < 0 || i >= ts.len() {
        Ok((e, i))
    } else if is_sym(ts, i, Sym::Dot) || is_sym(ts, i, Sym::QDot) {
        match ident_at(ts, i + 1) {
            Some(n) => p_suffixes(
                ts,
                if is_sym(ts, i, Sym::Dot) {
                    ExprM::Get(Box::new(e), n)
                } else {
                    ExprM::OptionalGet(Box::new(e), n)
                },
                i + 2,
            ),
            None => Err(syntax(i + 1)),
        }
    } else if is_sym(ts, i, Sym::LBracket) || is_sym(ts, i, Sym::QBracket) {
        match p_expr(ts, i + 1) {
            Err(x) => Err(x),
            Ok((x, k)) => if i < k < ts.len() && is_sym(ts, k, Sym::RBracket) {
                p_suffixes(
                    ts,
                    if is_sym(ts, i, Sym::LBracket) {
                        ExprM::Index(Box::new(e), Box::new(x))
                    } else {
                        ExprM::OptionalIndex(Box::new(e), Box::new(x))
                    },
                    k + 1,
                )
            } else {
                Err(syntax(k))
            },
        }
    } else if is_sym(ts, i, Sym::LParen) {
        match p_items(ts, i + 1, Sym::RParen) {
            Err(x) => Err(x),
            Ok((args, k)) => if i < k <= ts.len() {
                p_suffixes(ts, ExprM::Call(Box::new(e), args), k)
            } else {
                Err(syntax(i))
            },
        }
    } else {
        Ok((e, i))
    }
}

/// A literal, a name, or an expression in parentheses.
pub open spec fn p_primary(ts: Seq<TokenM>, i: int) -> Result<(ExprM, int), ParseError>
    decreases ts.len() - i, 2int,
{
    if i < 0 || i >= ts.len() {
        Err(syntax(i))
    } else {
        match ts[i] {
            TokenM::Int(d) => if is_digits(d) && digits_value(d) <= i64::MAX {
                Ok((ExprM::Literal(LitM::Int(digits_value(d) as i64)), i + 1))
            } else {
                Err(ParseError::IntRange(i as usize))
            },
            TokenM::Float(t) => Ok((ExprM::Literal(LitM::Float(t)), i + 1)),
            TokenM::Str(t) => Ok((ExprM::Literal(LitM::Str(t)), i + 1)),
            TokenM::Ident(n) => Ok((ExprM::Ident(n), i + 1)),
            TokenM::FText(_) => Err(syntax(i)),
            TokenM::Sym(s) => match s {
                Sym::True => Ok((ExprM::Literal(LitM::Bool(true)), i + 1)),
                Sym::False => Ok((ExprM::Literal(LitM::Bool(false)), i + 1)),
                Sym::Null => Ok((ExprM::Literal(LitM::Null), i + 1)),
                Sym::LParen => match p_expr(ts, i + 1) {
                    Err(x) => Err(x),
                    Ok((x, k)) => if is_sym(ts, k, Sym::RParen) {
                        Ok((x, k + 1))
                    } else {
                        Err(syntax(k))
                    },
                },
                Sym::LBracket => match p_items(ts, i + 1, Sym::RBracket) {
                    Err(x) => Err(x),
                    Ok((items, k)) => Ok((ExprM::List(items), k)),
                },
                Sym::LBrace => match p_entries(ts, i + 1) {
                    Err(x) => Err(x),
                    Ok((entries, k)) => Ok((ExprM::Dict(entries), k)),
                },
                Sym::FStrStart => match p_fparts(ts, i + 1) {
                    Err(x) => Err(x),
                    Ok((parts, k)) => Ok((ExprM::StringInterpolation(parts), k)),
                },
                _ => Err(syntax(i)),
            },
        }
    }
}

/// Comma-separated expressions up to and with `close`.
pub open spec fn p_items(ts: Seq<TokenM>, i: int, close: Sym) -> Result<(Seq<ExprM>, int), ParseError>
    decreases ts.len() - i, 7int,
{
    if is_sym(ts, i, close) {
        Ok((Seq::empty(), i + 1))
    } else {
        p_item_list(ts, i, close)
    }
}

pub open spec fn p_item_list(ts: Seq<TokenM>, i: int, close: Sym) -> Result<(Seq<ExprM>, int), ParseError>
    decreases ts.len() - i, 6int,
{
    match p_expr(ts, i) {
        Err(x) => Err(x),
        Ok((e, j)) => if is_sym(ts, j, Sym::Comma) && i < j < ts.len() {
            match p_item_list(ts, j + 1, close) {
                Err(x) => Err(x),
                Ok((rest, k)) => Ok((seq![e] + rest, k)),
            }
        } else if is_sym(ts, j, close) {
            Ok((seq![e], j + 1))
        } else {
            Err(syntax(j))
        },
    }
}

/// The entries of a dictionary literal up to and with `}`; a key is a string or a name.
pub open spec fn p_entries(ts: Seq<TokenM>, i: int) -> Result<(Seq<(ExprM, ExprM)>, int), ParseError>
    decreases ts.len() - i, 7int,
{
    if is_sym(ts, i, Sym::RBrace) {
        Ok((Seq::empty(), i + 1))
    } else {
        p_entry_list(ts, i)
    }
}

pub open spec fn p_entry_list(ts: Seq<TokenM>, i: int) -> Result<(Seq<(ExprM, ExprM)>, int), ParseError>
    decreases ts.len() - i, 6int,
{
    if i < 0 || i >= ts.len() {
        Err(syntax(i))
    } else {
        let key = match ts[i] {
            TokenM::Str(t) => Some(ExprM::Literal(LitM::Str(t))),
            TokenM::Ident(n) => Some(ExprM::Literal(LitM::Str(n))),
            _ => None,
        };
        match key {
            None => Err(syntax(i)),
            Some(k) => if !is_sym(ts, i + 1, Sym::Colon) {
                Err(syntax(i + 1))
            } else {
                match p_expr(ts, i + 2) {
                    Err(x) => Err(x),
                    Ok((v, j)) => if is_sym(ts, j, Sym::Comma) && i < j < ts.len() {
                        match p_entry_list(ts, j + 1) {
                            Err(x) => Err(x),
                            Ok((rest, m)) => Ok((seq![(k, v)] + rest, m)),
                        }
                    } else if is_sym(ts, j, Sym::RBrace) {
                        Ok((seq![(k, v)], j + 1))
                    } else {
                        Err(syntax(j))
                    },
                }
            },
        }
    }
}

/// The parts of an interpolated string up to and with its end: text, and `{expression}`.
pub open spec fn p_fparts(ts: Seq<TokenM>, i: int) -> Result<(Seq<ExprM>, int), ParseError>
    decreases ts.len() - i, 6int,
{
    if i < 0 || i >= ts.len() {
        Err(syntax(i))
    } else {
        match ts[i] {
            TokenM::FText(t) => match p_fparts(ts, i + 1) {
                Err(x) => Err(x),
                Ok((rest, k)) => Ok((seq![ExprM::Literal(LitM::Str(t))] + rest, k)),
            },
            TokenM::Sym(Sym::FStrEnd) => Ok((Seq::empty(), i + 1)),
            TokenM::Sym(Sym::CodeOpen) => match p_expr(ts, i + 1) {
                Err(x) => Err(x),
                Ok((e, j)) => if i < j < ts.len() && is_sym(ts, j, Sym::CodeClose) {
                    match p_fparts(ts, j + 1) {
                        Err(x) => Err(x),
                        Ok((rest, k)) => Ok((seq![e] + rest, k)),
                    }
                } else {
                    Err(syntax(j))
                },
            },
            _ => Err(syntax(i)),
        }
    }
}

/// A block: statements between `{` and `}`.
pub open spec fn p_block(ts: Seq<TokenM>, i: int) -> Result<(Seq<StmtM>, int), ParseError>
    decreases ts.len() - i, 6int,
{
    if i >= 0 && is_sym(ts, i, Sym::LBrace) {
        p_stmts(ts, i + 1, true)
    } else {
        Err(syntax(i))
    }
}

/// Statements from `i`: up to and with `}` in a block, or to the end of the tokens.
pub open spec fn p_stmts(ts: Seq<TokenM>, i: int, in_block: bool) -> Result<(Seq<StmtM>, int), ParseError>
    decreases ts.len() - i, 9int,
{
    if i < 0 || i > ts.len() {
        Err(syntax(i))
    } else if in_block && is_sym(ts, i, Sym::RBrace) {
        Ok((Seq::empty(), i + 1))
    } else if i == ts.len() {
        if in_block {
            Err(syntax(i))
        } else {
            Ok((Seq::empty(), i))
        }
    } else {
        match p_stmt(ts, i) {
            Err(x) => Err(x),
            Ok((s, j)) => if i < j <= ts.len() {
                match p_stmts(ts, j, in_block) {
                    Err(x) => Err(x),
                    Ok((rest, k)) => Ok((seq![s] + rest, k)),
                }
            } else {
                Err(syntax(i))
            },
        }
    }
}

/// Decorators before a function (`@name` or `@name(args)`), which are skipped.
pub open spec fn skip_decorators(ts: Seq<TokenM>, i: int) -> Result<int, ParseError>
    decreases ts.len() - i, 6int,
{
    if i >= 0 && is_sym(ts, i, Sym::At) {
        if ident_at(ts, i + 1) is None {
            Err(syntax(i + 1))
        } else if is_sym(ts, i + 2, Sym::LParen) {
            match p_items(ts, i + 3, Sym::RParen) {
                Err(x) => Err(x),
                Ok((_, j)) => if i < j <= ts.len() {
                    skip_decorators(ts, j)
                } else {
                    Err(syntax(i))
                },
            }
        } else {
            skip_decorators(ts, i + 2)
        }
    } else {
        Ok(i)
    }
}

/// The parameters of a function up to and with `)`: names, each with an optional type.
pub open spec fn p_params(ts: Seq<TokenM>, i: int) -> Result<(Seq<(Seq<char>, Option<Seq<char>>)>, int), ParseError>
    decreases ts.len() - i, 1int,
{
    if is_sym(ts, i, Sym::RParen) {
        Ok((Seq::empty(), i + 1))
    } else {
        p_param_list(ts, i)
    }
}

pub open spec fn p_param_list(ts: Seq<TokenM>, i: int) -> Result<(Seq<(Seq<char>, Option<Seq<char>>)>, int), ParseError>
    decreases ts.len() - i, 0int,
{
    match ident_at(ts, i) {
        None => Err(syntax(i)),
        Some(n) => {
            let ty = if is_sym(ts, i + 1, Sym::Colon) {
                match p_type(ts, i + 2) {
                    Ok((t, j)) => Ok((Some(t), j)),
                    Err(x) => Err(x),
                }
            } else {
                Ok((None, i + 1))
            };
            match ty {
                Err(x) => Err(x),
                Ok((t, j)) => if is_sym(ts, j, Sym::Comma) && i < j < ts.len() {
                    match p_param_list(ts, j + 1) {
                        Err(x) => Err(x),
                        Ok((rest, k)) => Ok((seq![(n, t)] + rest, k)),
                    }
                } else if is_sym(ts, j, Sym::RParen) {
                    Ok((seq![(n, t)], j + 1))
                } else {
                    Err(syntax(j))
                },
            }
        },
    }
}

/// A function declaration.
pub open spec fn p_fn(ts: Seq<TokenM>, i: int) -> Result<(StmtM, int), ParseError>
    decreases ts.len() - i, 7int,
{
    match skip_decorators(ts, i) {
        Err(x) => Err(x),
        Ok(k) => if i <= k && is_sym(ts, k, Sym::Fn) {
            match ident_at(ts, k + 1) {
                None => Err(syntax(k + 1)),
                Some(name) => if !is_sym(ts, k + 2, Sym::LParen) {
                    Err(syntax(k + 2))
                } else {
                    match p_params(ts, k + 3) {
                        Err(x) => Err(x),
                        Ok((params, j)) => {
                            let rt = if is_sym(ts, j, Sym::Arrow) {
                                match p_type(ts, j + 1) {
                                    Ok((t, m)) => Ok((Some(t), m)),
                                    Err(x) => Err(x),
                                }
                            } else {
                                Ok((None, j))
                            };
                            match rt {
                                Err(x) => Err(x),
                                Ok((t, m)) => if i < m <= ts.len() {
                                    match p_block(ts, m) {
                                        Err(x) => Err(x),
                                        Ok((body, e)) => Ok((StmtM::FnDecl(name, params, t, body), e)),
                                    }
                                } else {
                                    Err(syntax(i))
                                },
                            }
                        },
                    }
                },
            }
        } else {
            Err(syntax(k))
        },
    }
}

/// `if condition { .. }`, optionally followed by `else { .. }` or `else if ..`.
pub open spec fn p_if(ts: Seq<TokenM>, i: int) -> Result<(StmtM, int), ParseError>
    decreases ts.len() - i, 7int,
{
    if i < 0 || !is_sym(ts, i, Sym::If) {
        Err(syntax(i))
    } else {
        match p_expr(ts, i + 1) {
            Err(x) => Err(x),
            Ok((c, j)) => if i < j <= ts.len() {
                match p_block(ts, j) {
                    Err(x) => Err(x),
                    Ok((t, k)) => if is_sym(ts, k, Sym::Else) && i < k {
                        if is_sym(ts, k + 1, Sym::If) {
                            match p_if(ts, k + 1) {
                                Err(x) => Err(x),
                                Ok((s, m)) => Ok((StmtM::If(c, t, Some(seq![s])), m)),
                            }
                        } else {
                            match p_block(ts, k + 1) {
                                Err(x) => Err(x),
                                Ok((eb, m)) => Ok((StmtM::If(c, t, Some(eb)), m)),
                            }
                        }
                    } else {
                        Ok((StmtM::If(c, t, None), k))
                    },
                }
            } else {
                Err(syntax(i))
            },
        }
    }
}

/// A statement.
pub open spec fn p_stmt(ts: Seq<TokenM>, i: int) -> Result<(StmtM, int), ParseError>
    decreases ts.len() - i, 8int,
{
    if i < 0 || i >= ts.len() {
        Err(syntax(i))
    } else {
        match sym_at(ts, i) {
            Some(Sym::Import) => match ident_at(ts, i + 1) {
                None => Err(syntax(i + 1)),
                Some(m) => if is_sym(ts, i + 2, Sym::From) {
                    if 0 <= i + 3 < ts.len() && ts[i + 3] is Str {
                        Ok((StmtM::Import(m, Some(ts[i + 3]->Str_0)), skip_semi(ts, i + 4)))
                    } else {
                        Err(syntax(i + 3))
                    }
                } else {
                    Ok((StmtM::Import(m, None), skip_semi(ts, i + 2)))
                },
            },
            Some(Sym::Let) => match ident_at(ts, i + 1) {
                None => Err(syntax(i + 1)),
                Some(name) => {
                    let ty = if is_sym(ts, i + 2, Sym::Colon) {
                        match p_type(ts, i + 3) {
                            Ok((t, j)) => Ok((Some(t), j)),
                            Err(x) => Err(x),
                        }
                    } else {
                        Ok((None, i + 2))
                    };
                    match ty {
                        Err(x) => Err(x),
                        Ok((t, j)) => if is_sym(ts, j, Sym::Assign) && i < j {
                            match p_expr(ts, j + 1) {
                                Err(x) => Err(x),
                                Ok((e, k)) => Ok((StmtM::Let(name, t, e), skip_semi(ts, k))),
                            }
                        } else {
                            Err(syntax(j))
                        },
                    }
                },
            },
            Some(Sym::At) => p_fn(ts, i),
            Some(Sym::Fn) => p_fn(ts, i),
            Some(Sym::If) => p_if(ts, i),
            Some(Sym::While) => match p_expr(ts, i + 1) {
                Err(x) => Err(x),
                Ok((c, j)) => if i < j <= ts.len() {
                    match p_block(ts, j) {
                        Err(x) => Err(x),
                        Ok((b, k)) => Ok((StmtM::While(c, b), k)),
                    }
                } else {
                    Err(syntax(i))
                },
            },
            Some(Sym::For) => match ident_at(ts, i + 1) {
                None => Err(syntax(i + 1)),
                Some(v) => if !is_sym(ts, i + 2, Sym::In) {
                    Err(syntax(i + 2))
                } else {
                    match p_expr(ts, i + 3) {
                        Err(x) => Err(x),
                        Ok((it, j)) => if i < j <= ts.len() {
                            match p_block(ts, j) {
                                Err(x) => Err(x),
                                Ok((b, k)) => Ok((StmtM::For(v, it, b), k)),
                            }
                        } else {
                            Err(syntax(i))
                        },
                    }
                },
            },
            Some(Sym::Return) => if i + 1 >= ts.len() || is_sym(ts, i + 1, Sym::Semi) || is_sym(
                ts,
                i + 1,
                Sym::RBrace,
            ) {
                Ok((StmtM::Return(None), skip_semi(ts, i + 1)))
            } else {
                match p_expr(ts, i + 1) {
                    Err(x) => Err(x),
                    Ok((e, j)) => Ok((StmtM::Return(Some(e)), skip_semi(ts, j))),
                }
            },
            _ => if ident_at(ts, i) is Some && is_sym(ts, i + 1, Sym::Assign) {
                match p_expr(ts, i + 2) {
                    Err(x) => Err(x),
                    Ok((e, j)) => Ok((StmtM::Assign(ident_at(ts, i).unwrap(), e), skip_semi(ts, j))),
                }
            } else {
                match p_expr(ts, i) {
                    Err(x) => Err(x),
                    Ok((e, j)) => Ok((StmtM::Expr(e), skip_semi(ts, j))),
                }
            },
        }
    }
}

/// The program that a text spells.
pub open spec fn spec_parse(src: Seq<char>) -> Result<Seq<StmtM>, ParseError> {
    match lex(src) {
        Err(p) => Err(ParseError::Lex(p as usize)),
        Ok(ts) => match p_stmts(ts, 0, false) {
            Err(x) => Err(x),
            Ok((stmts, _)) => Ok(stmts),
        },
    }
}

/// The expression with which a text begins, read from its tokens up to the
/// first character that starts no token: what follows the expression is not
/// looked at beyond that.
pub open spec fn spec_parse_expression(src: Seq<char>) -> Result<ExprM, ParseError> {
    match p_expr(lex_prefix(src, 0, src.len() as int), 0) {
        Err(x) => Err(x),
        Ok((e, _)) => Ok(e),
    }
}

/// For a text that cuts wholly into tokens, the expression is read from all of them.
pub proof fn law_expression_of_whole_text(src: Seq<char>)
    ensures
        lex(src) matches Ok(ts) ==> spec_parse_expression(src) == match p_expr(ts, 0) {
            Err(x) => Err(x),
            Ok((e, _)) => Ok(e),
        },
{
    lemma_lex_prefix_whole(src, 0, src.len() as int);
}


// ---------------------------------------------------------------------------
// The parser. Each function follows the spec function of the same name.

pub open spec fn expr_res(r: Result<(Expr, usize), ParseError>) -> Result<(ExprM, int), ParseError> {
    match r {
        Ok((e, j)) => Ok((view_expr(e), j as int)),
        Err(x) => Err(x),
    }
}

pub open spec fn exprs_res(r: Result<(Vec<Expr>, usize), ParseError>) -> Result<(Seq<ExprM>, int), ParseError> {
    match r {
        Ok((v, j)) => Ok((view_exprs(v@), j as int)),
        Err(x) => Err(x),
    }
}

pub open spec fn pairs_res(r: Result<(Vec<(Expr, Expr)>, usize), ParseError>) -> Result<(Seq<(ExprM, ExprM)>, int), ParseError> {
    match r {
        Ok((v, j)) => Ok((view_pairs(v@), j as int)),
        Err(x) => Err(x),
    }
}

pub open spec fn type_res(r: Result<(String, usize), ParseError>) -> Result<(Seq<char>, int), ParseError> {
    match r {
        Ok((t, j)) => Ok((t@, j as int)),
        Err(x) => Err(x),
    }
}

fn sym_at_x(ts: &Vec<Token>, i: usize) -> (r: Option<Sym>)
    ensures
        r == sym_at(view_tokens(ts@), i as int),
{
    if i < ts.len() {
        assert(view_tokens(ts@)[i as int] == view_token(ts@[i as int]));
        match &ts[i] {
            Token::Sym(s) => Some(*s),
            _ => None,
        }
    } else {
        None
    }
}

fn is_sym_x(ts: &Vec<Token>, i: usize, s: Sym) -> (r: bool)
    ensures
        r == is_sym(view_tokens(ts@), i as int, s),
        r ==> i < ts.len(),
{
    match sym_at_x(ts, i) {
        Some(t) => t == s,
        None => false,
    }
}

fn ident_at_x(ts: &Vec<Token>, i: usize) -> (r: Option<String>)
    ensures
        view_opt_str(r) == ident_at(view_tokens(ts@), i as int),
        r is Some ==> i < ts.len(),
{
    if i < ts.len() {
        assert(view_tokens(ts@)[i as int] == view_token(ts@[i as int]));
        match &ts[i] {
            Token::Ident(n) => Some(n.clone()),
            _ => None,
        }
    } else {
        None
    }
}

fn skip_semi_x(ts: &Vec<Token>, i: usize) -> (r: usize)
    ensures
        r == skip_semi(view_tokens(ts@), i as int),
{
    if is_sym_x(ts, i, Sym::Semi) {
        i + 1
    } else {
        i
    }
}

fn binop_of_x(s: Sym) -> (r: Option<BinaryOp>)
    ensures
        r == binop_of(s),
{
    match s {
        Sym::Plus => Some(BinaryOp::Add),
        Sym::Minus => Some(BinaryOp::Sub),
        Sym::Star => Some(BinaryOp::Mul),
        Sym::Slash => Some(BinaryOp::Div),
        Sym::EqEq => Some(BinaryOp::Eq),
        Sym::NotEq => Some(BinaryOp::Ne),
        Sym::Lt => Some(BinaryOp::Lt),
        Sym::Gt => Some(BinaryOp::Gt),
        Sym::Le => Some(BinaryOp::Le),
        Sym::Ge => Some(BinaryOp::Ge),
        Sym::AndAnd => Some(BinaryOp::And),
        Sym::OrOr => Some(BinaryOp::Or),
        _ => None,
    }
}

proof fn lemma_digits_value_grows(s: Seq<char>, n: int)
    requires
        is_digits(s),
        0 <= n <= s.len(),
    ensures
        digits_value(s.subrange(0, n)) <= digits_value(s),
        0 <= digits_value(s.subrange(0, n)),
    decreases s.len(),
{
    if n < s.len() {
        assert(is_digit(s.last()));
        assert(is_digits(s.drop_last()));
        lemma_digits_value_grows(s.drop_last(), n);
        assert(s.drop_last().subrange(0, n) =~= s.subrange(0, n));
    } else {
        assert(s.subrange(0, n) =~= s);
        if s.len() > 0 {
            assert(is_digits(s.drop_last()));
            lemma_digits_value_grows(s.drop_last(), n - 1);
            assert(s.drop_last().subrange(0, n - 1) =~= s.drop_last());
            assert(is_digit(s.last()));
        }
    }
}

/// The value of a decimal integer literal, if it fits in an `i64`.
pub fn digits_to_i64(s: &String) -> (r: Option<i64>)
    ensures
        r == (if is_digits(s@) && digits_value(s@) <= i64::MAX {
            Some(digits_value(s@) as i64)
        } else {
            None
        }),
{
    let cs = chars_of(s.as_str());
    let mut v: i64 = 0;
    let mut k: usize = 0;
    assert(cs@.subrange(0, 0) =~= Seq::<char>::empty());
    while k < cs.len()
        invariant
            cs@ == s@,
            k <= cs.len(),
            is_digits(cs@.subrange(0, k as int)),
            v as int == digits_value(cs@.subrange(0, k as int)),
            0 <= v,
        decreases cs.len() - k,
    {
        let c = cs[k];
        assert(cs@.subrange(0, k + 1).drop_last() =~= cs@.subrange(0, k as int));
        if !('0' <= c && c <= '9') {
            assert(!is_digit(s@[k as int]));
            return None;
        }
        let d: i64 = (c as u32 - '0' as u32) as i64;
        assert(d as int == c as int - '0' as int);
        if v > (i64::MAX - d) / 10 {
            proof {
                assert(digits_value(cs@.subrange(0, k + 1)) > i64::MAX) by (nonlinear_arith)
                    requires
                        digits_value(cs@.subrange(0, k + 1)) == v * 10 + d,
                        v > (i64::MAX - d) / 10,
                        0 <= d <= 9,
                ;
                assert(is_digits(cs@.subrange(0, k + 1)));
                if is_digits(s@) {
                    lemma_digits_value_grows(s@, k + 1);
                }
            }
            return None;
        }
        assert(v * 10 + d <= i64::MAX) by (nonlinear_arith)
            requires
                v <= (i64::MAX - d) / 10,
                0 <= d <= 9,
                0 <= v,
        ;
        assert(0 <= v * 10 + d) by (nonlinear_arith)
            requires
                0 <= d,
                0 <= v,
        ;
        v = v * 10 + d;
        assert(is_digits(cs@.subrange(0, k + 1)));
        k = k + 1;
    }
    assert(cs@.subrange(0, k as int) =~= s@);
    Some(v)
}

fn one_expr(e: Expr) -> (r: Vec<Expr>)
    ensures
        view_exprs(r@) == seq![view_expr(e)],
{
    let mut v: Vec<Expr> = Vec::new();
    v.push(e);
    assert(view_exprs(v@) =~= seq![view_expr(e)]);
    v
}

fn prepend_expr(e: Expr, rest: Vec<Expr>) -> (r: Vec<Expr>)
    ensures
        view_exprs(r@) == seq![view_expr(e)] + view_exprs(rest@),
{
    let mut v: Vec<Expr> = Vec::new();
    v.push(e);
    let ghost r0 = rest@;
    let mut rest = rest;
    v.append(&mut rest);
    assert(view_exprs(v@) =~= seq![view_expr(e)] + view_exprs(r0));
    v
}

fn prepend_pair(k: Expr, x: Expr, rest: Vec<(Expr, Expr)>) -> (r: Vec<(Expr, Expr)>)
    ensures
        view_pairs(r@) == seq![(view_expr(k), view_expr(x))] + view_pairs(rest@),
{
    let mut v: Vec<(Expr, Expr)> = Vec::new();
    v.push((k, x));
    let ghost r0 = rest@;
    let mut rest = rest;
    v.append(&mut rest);
    assert(view_pairs(v@) =~= seq![(view_expr(k), view_expr(x))] + view_pairs(r0));
    v
}

fn p_type_x(ts: &Vec<Token>, i: usize) -> (r: Result<(String, usize), ParseError>)
    ensures
        type_res(r) == p_type(view_tokens(ts@), i as int),
{
    match ident_at_x(ts, i) {
        Some(n) => p_type_rest_x(ts, n, i + 1),
        None => Err(ParseError::Syntax(i)),
    }
}

fn p_type_rest_x(ts: &Vec<Token>, acc: String, i: usize) -> (r: Result<(String, usize), ParseError>)
    ensures
        type_res(r) == p_type_rest(view_tokens(ts@), acc@, i as int),
    decreases ts@.len() - i,
{
    if is_sym_x(ts, i, Sym::Pipe) {
        match ident_at_x(ts, i + 1) {
            Some(n) => {
                let a = concat(acc.as_str(), " | ");
                let b = concat(a.as_str(), n.as_str());
                return p_type_rest_x(ts, b, i + 2);
            },
            None => {},
        }
    }
    Ok((acc, i))
}

fn p_expr_x(ts: &Vec<Token>, i: usize) -> (r: Result<(Expr, usize), ParseError>)
    ensures
        expr_res(r) == p_expr(view_tokens(ts@), i as int),
    decreases ts@.len() - i, 5int,
{
    if i > ts.len() {
        return Err(ParseError::Syntax(i));
    }
    match p_operand_x(ts, i) {
        Err(x) => Err(x),
        Ok((e, j)) => if i < j && j <= ts.len() {
            p_rest_x(ts, e, j)
        } else {
            Err(ParseError::Syntax(i))
        },
    }
}

fn p_rest_x(ts: &Vec<Token>, lhs: Expr, i: usize) -> (r: Result<(Expr, usize), ParseError>)
    ensures
        expr_res(r) == p_rest(view_tokens(ts@), view_expr(lhs), i as int),
    decreases ts@.len() - i, 3int,
{
    if i >= ts.len() {
        return Ok((lhs, i));
    }
    match sym_at_x(ts, i) {
        Some(s) => match binop_of_x(s) {
            Some(op) => match p_operand_x(ts, i + 1) {
                Err(x) => Err(x),
                Ok((rhs, k)) => if i < k && k <= ts.len() {
                    p_rest_x(ts, Expr::Binary { op, left: Box::new(lhs), right: Box::new(rhs) }, k)
                } else {
                    Err(ParseError::Syntax(i))
                },
            },
            None => Ok((lhs, i)),
        },
        None => Ok((lhs, i)),
    }
}

fn p_operand_x(ts: &Vec<Token>, i: usize) -> (r: Result<(Expr, usize), ParseError>)
    ensures
        expr_res(r) == p_operand(view_tokens(ts@), i as int),
    decreases ts@.len() - i, 4int,
{
    if i > ts.len() {
        return Err(ParseError::Syntax(i));
    }
    let first = if is_sym_x(ts, i, Sym::Minus) {
        match p_primary_x(ts, i + 1) {
            Ok((p, j)) => Ok((Expr::Unary { op: UnaryOp::Neg, expr: Box::new(p) }, j)),
            Err(x) => Err(x),
        }
    } else if is_sym_x(ts, i, Sym::Bang) {
        match p_primary_x(ts, i + 1) {
            Ok((p, j)) => Ok((Expr::Unary { op: UnaryOp::Not, expr: Box::new(p) }, j)),
            Err(x) => Err(x),
        }
    } else {
        p_primary_x(ts, i)
    };
    match first {
        Err(x) => Err(x),
        Ok((e, j)) => if i < j && j <= ts.len() {
            p_suffixes_x(ts, e, j)
        } else {
            Err(ParseError::Syntax(i))
        },
    }
}

fn p_suffixes_x(ts: &Vec<Token>, e: Expr, i: usize) -> (r: Result<(Expr, usize), ParseError>)
    ensures
        expr_res(r) == p_suffixes(view_tokens(ts@), view_expr(e), i as int),
    decreases ts@.len() - i, 1int,
{
    if i >= ts.len() {
        return Ok((e, i));
    }
    let dot = is_sym_x(ts, i, Sym::Dot);
    if dot || is_sym_x(ts, i, Sym::QDot) {
        match ident_at_x(ts, i + 1) {
            Some(n) => {
                let next = if dot {
                    Expr::Get { object: Box::new(e), name: n }
                } else {
                    Expr::OptionalGet { object: Box::new(e), name: n }
                };
                p_suffixes_x(ts, next, i + 2)
            },
            None => Err(ParseError::Syntax(i + 1)),
        }
    } else {
        let bracket = is_sym_x(ts, i, Sym::LBracket);
        if bracket || is_sym_x(ts, i, Sym::QBracket) {
            match p_expr_x(ts, i + 1) {
                Err(x) => Err(x),
                Ok((x, k)) => if i < k && k < ts.len() && is_sym_x(ts, k, Sym::RBracket) {
                    let next = if bracket {
                        Expr::Index { object: Box::new(e), index: Box::new(x) }
                    } else {
                        Expr::OptionalIndex { object: Box::new(e), index: Box::new(x) }
                    };
                    p_suffixes_x(ts, next, k + 1)
                } else {
                    Err(ParseError::Syntax(k))
                },
            }
        } else if is_sym_x(ts, i, Sym::LParen) {
            match p_items_x(ts, i + 1, Sym::RParen) {
                Err(x) => Err(x),
                Ok((args, k)) => if i < k && k <= ts.len() {
                    p_suffixes_x(ts, Expr::Call { callee: Box::new(e), args }, k)
                } else {
                    Err(ParseError::Syntax(i))
                },
            }
        } else {
            Ok((e, i))
        }
    }
}

fn p_primary_x(ts: &Vec<Token>, i: usize) -> (r: Result<(Expr, usize), ParseError>)
    ensures
        expr_res(r) == p_primary(view_tokens(ts@), i as int),
    decreases ts@.len() - i, 2int,
{
    if i >= ts.len() {
        return Err(ParseError::Syntax(i));
    }
    assert(view_tokens(ts@)[i as int] == view_token(ts@[i as int]));
    match &ts[i] {
        Token::Int(d) => match digits_to_i64(d) {
            Some(v) => Ok((Expr::Literal(Literal::Int(v)), i + 1)),
            None => Err(ParseError::IntRange(i)),
        },
        Token::Float(t) => Ok((Expr::Literal(Literal::Float(t.clone())), i + 1)),
        Token::Str(t) => Ok((Expr::Literal(Literal::Str(t.clone())), i + 1)),
        Token::Ident(n) => Ok((Expr::Ident(n.clone()), i + 1)),
        Token::FText(_) => Err(ParseError::Syntax(i)),
        Token::Sym(s) => match *s {
            Sym::True => Ok((Expr::Literal(Literal::Bool(true)), i + 1)),
            Sym::False => Ok((Expr::Literal(Literal::Bool(false)), i + 1)),
            Sym::Null => Ok((Expr::Literal(Literal::Null), i + 1)),
            Sym::LParen => match p_expr_x(ts, i + 1) {
                Err(x) => Err(x),
                Ok((x, k)) => if is_sym_x(ts, k, Sym::RParen) {
                    Ok((x, k + 1))
                } else {
                    Err(ParseError::Syntax(k))
                },
            },
            Sym::LBracket => match p_items_x(ts, i + 1, Sym::RBracket) {
                Err(x) => Err(x),
                Ok((items, k)) => Ok((Expr::List(items), k)),
            },
            Sym::LBrace => match p_entries_x(ts, i + 1) {
                Err(x) => Err(x),
                Ok((entries, k)) => Ok((Expr::Dict(entries), k)),
            },
            Sym::FStrStart => match p_fparts_x(ts, i + 1) {
                Err(x) => Err(x),
                Ok((parts, k)) => Ok((Expr::StringInterpolation(parts), k)),
            },
            _ => Err(ParseError::Syntax(i)),
        },
    }
}

fn p_items_x(ts: &Vec<Token>, i: usize, close: Sym) -> (r: Result<(Vec<Expr>, usize), ParseError>)
    ensures
        exprs_res(r) == p_items(view_tokens(ts@), i as int, close),
    decreases ts@.len() - i, 7int,
{
    if is_sym_x(ts, i, close) {
        let v: Vec<Expr> = Vec::new();
        assert(view_exprs(v@) =~= Seq::<ExprM>::empty());
        Ok((v, i + 1))
    } else {
        p_item_list_x(ts, i, close)
    }
}

fn p_item_list_x(ts: &Vec<Token>, i: usize, close: Sym) -> (r: Result<(Vec<Expr>, usize), ParseError>)
    ensures
        exprs_res(r) == p_item_list(view_tokens(ts@), i as int, close),
    decreases ts@.len() - i, 6int,
{
    match p_expr_x(ts, i) {
        Err(x) => Err(x),
        Ok((e, j)) => if is_sym_x(ts, j, Sym::Comma) && i < j && j < ts.len() {
            match p_item_list_x(ts, j + 1, close) {
                Err(x) => Err(x),
                Ok((rest, k)) => Ok((prepend_expr(e, rest), k)),
            }
        } else if is_sym_x(ts, j, close) {
            Ok((one_expr(e), j + 1))
        } else {
            Err(ParseError::Syntax(j))
        },
    }
}

fn p_entries_x(ts: &Vec<Token>, i: usize) -> (r: Result<(Vec<(Expr, Expr)>, usize), ParseError>)
    ensures
        pairs_res(r) == p_entries(view_tokens(ts@), i as int),
    decreases ts@.len() - i, 7int,
{
    if is_sym_x(ts, i, Sym::RBrace) {
        let v: Vec<(Expr, Expr)> = Vec::new();
        assert(view_pairs(v@) =~= Seq::<(ExprM, ExprM)>::empty());
        Ok((v, i + 1))
    } else {
        p_entry_list_x(ts, i)
    }
}

fn p_entry_list_x(ts: &Vec<Token>, i: usize) -> (r: Result<(Vec<(Expr, Expr)>, usize), ParseError>)
    ensures
        pairs_res(r) == p_entry_list(view_tokens(ts@), i as int),
    decreases ts@.len() - i, 6int,
{
    if i >= ts.len() {
        return Err(ParseError::Syntax(i));
    }
    assert(view_tokens(ts@)[i as int] == view_token(ts@[i as int]));
    let key = match &ts[i] {
        Token::Str(t) => Expr::Literal(Literal::Str(t.clone())),
        Token::Ident(n) => Expr::Literal(Literal::Str(n.clone())),
        _ => {
            return Err(ParseError::Syntax(i));
        },
    };
    if !is_sym_x(ts, i + 1, Sym::Colon) {
        return Err(ParseError::Syntax(i + 1));
    }
    match p_expr_x(ts, i + 2) {
        Err(x) => Err(x),
        Ok((v, j)) => if is_sym_x(ts, j, Sym::Comma) && i < j && j < ts.len() {
            match p_entry_list_x(ts, j + 1) {
                Err(x) => Err(x),
                Ok((rest, m)) => Ok((prepend_pair(key, v, rest), m)),
            }
        } else if is_sym_x(ts, j, Sym::RBrace) {
            let one = prepend_pair(key, v, Vec::new());
            assert(view_pairs(Seq::<(Expr, Expr)>::empty()) =~= Seq::<(ExprM, ExprM)>::empty());
            Ok((one, j + 1))
        } else {
            Err(ParseError::Syntax(j))
        },
    }
}

fn p_fparts_x(ts: &Vec<Token>, i: usize) -> (r: Result<(Vec<Expr>, usize), ParseError>)
    ensures
        exprs_res(r) == p_fparts(view_tokens(ts@), i as int),
    decreases ts@.len() - i, 6int,
{
    if i >= ts.len() {
        return Err(ParseError::Syntax(i));
    }
    assert(view_tokens(ts@)[i as int] == view_token(ts@[i as int]));
    match &ts[i] {
        Token::FText(t) => match p_fparts_x(ts, i + 1) {
            Err(x) => Err(x),
            Ok((rest, k)) => Ok((prepend_expr(Expr::Literal(Literal::Str(t.clone())), rest), k)),
        },
        Token::Sym(Sym::FStrEnd) => {
            let v: Vec<Expr> = Vec::new();
            assert(view_exprs(v@) =~= Seq::<ExprM>::empty());
            Ok((v, i + 1))
        },
        Token::Sym(Sym::CodeOpen) => match p_expr_x(ts, i + 1) {
            Err(x) => Err(x),
            Ok((e, j)) => if i < j && j < ts.len() && is_sym_x(ts, j, Sym::CodeClose) {
                match p_fparts_x(ts, j + 1) {
                    Err(x) => Err(x),
                    Ok((rest, k)) => Ok((prepend_expr(e, rest), k)),
                }
            } else {
                Err(ParseError::Syntax(j))
            },
        },
        _ => Err(ParseError::Syntax(i)),
    }
}

pub open spec fn stmt_res(r: Result<(Stmt, usize), ParseError>) -> Result<(StmtM, int), ParseError> {
    match r {
        Ok((x, j)) => Ok((view_stmt(x), j as int)),
        Err(e) => Err(e),
    }
}

pub open spec fn stmts_res(r: Result<(Vec<Stmt>, usize), ParseError>) -> Result<(Seq<StmtM>, int), ParseError> {
    match r {
        Ok((v, j)) => Ok((view_stmts(v@), j as int)),
        Err(e) => Err(e),
    }
}

pub open spec fn params_res(r: Result<(Vec<(String, Option<String>)>, usize), ParseError>) -> Result<
    (Seq<(Seq<char>, Option<Seq<char>>)>, int),
    ParseError,
> {
    match r {
        Ok((v, j)) => Ok((view_params(v@), j as int)),
        Err(e) => Err(e),
    }
}

pub open spec fn pos_res(r: Result<usize, ParseError>) -> Result<int, ParseError> {
    match r {
        Ok(j) => Ok(j as int),
        Err(e) => Err(e),
    }
}

fn prepend_stmt(x: Stmt, rest: Vec<Stmt>) -> (r: Vec<Stmt>)
    ensures
        view_stmts(r@) == seq![view_stmt(x)] + view_stmts(rest@),
{
    let mut v: Vec<Stmt> = Vec::new();
    v.push(x);
    let ghost r0 = rest@;
    let mut rest = rest;
    v.append(&mut rest);
    assert(view_stmts(v@) =~= seq![view_stmt(x)] + view_stmts(r0));
    v
}

fn no_stmts() -> (r: Vec<Stmt>)
    ensures
        view_stmts(r@) == Seq::<StmtM>::empty(),
{
    let v: Vec<Stmt> = Vec::new();
    assert(view_stmts(v@) =~= Seq::<StmtM>::empty());
    v
}

fn p_block_x(ts: &Vec<Token>, i: usize) -> (r: Result<(Vec<Stmt>, usize), ParseError>)
    ensures
        stmts_res(r) == p_block(view_tokens(ts@), i as int),
    decreases ts@.len() - i, 6int,
{
    if is_sym_x(ts, i, Sym::LBrace) {
        p_stmts_x(ts, i + 1, true)
    } else {
        Err(ParseError::Syntax(i))
    }
}

fn p_stmts_x(ts: &Vec<Token>, i: usize, in_block: bool) -> (r: Result<(Vec<Stmt>, usize), ParseError>)
    ensures
        stmts_res(r) == p_stmts(view_tokens(ts@), i as int, in_block),
    decreases ts@.len() - i, 9int,
{
    if i > ts.len() {
        Err(ParseError::Syntax(i))
    } else if in_block && is_sym_x(ts, i, Sym::RBrace) {
        Ok((no_stmts(), i + 1))
    } else if i == ts.len() {
        if in_block {
            Err(ParseError::Syntax(i))
        } else {
            Ok((no_stmts(), i))
        }
    } else {
        match p_stmt_x(ts, i) {
            Err(x) => Err(x),
            Ok((st, j)) => if i < j && j <= ts.len() {
                match p_stmts_x(ts, j, in_block) {
                    Err(x) => Err(x),
                    Ok((rest, k)) => Ok((prepend_stmt(st, rest), k)),
                }
            } else {
                Err(ParseError::Syntax(i))
            },
        }
    }
}

fn skip_decorators_x(ts: &Vec<Token>, i: usize) -> (r: Result<usize, ParseError>)
    ensures
        pos_res(r) == skip_decorators(view_tokens(ts@), i as int),
    decreases ts@.len() - i, 6int,
{
    if is_sym_x(ts, i, Sym::At) {
        if ident_at_x(ts, i + 1).is_none() {
            Err(ParseError::Syntax(i + 1))
        } else if is_sym_x(ts, i + 2, Sym::LParen) {
            match p_items_x(ts, i + 3, Sym::RParen) {
                Err(x) => Err(x),
                Ok((_, j)) => if i < j && j <= ts.len() {
                    skip_decorators_x(ts, j)
                } else {
                    Err(ParseError::Syntax(i))
                },
            }
        } else {
            skip_decorators_x(ts, i + 2)
        }
    } else {
        Ok(i)
    }
}

fn p_params_x(ts: &Vec<Token>, i: usize) -> (r: Result<(Vec<(String, Option<String>)>, usize), ParseError>)
    ensures
        params_res(r) == p_params(view_tokens(ts@), i as int),
    decreases ts@.len() - i, 1int,
{
    if is_sym_x(ts, i, Sym::RParen) {
        let v: Vec<(String, Option<String>)> = Vec::new();
        assert(view_params(v@) =~= Seq::<(Seq<char>, Option<Seq<char>>)>::empty());
        Ok((v, i + 1))
    } else {
        p_param_list_x(ts, i)
    }
}

fn p_param_list_x(ts: &Vec<Token>, i: usize) -> (r: Result<(Vec<(String, Option<String>)>, usize), ParseError>)
    ensures
        params_res(r) == p_param_list(view_tokens(ts@), i as int),
    decreases ts@.len() - i, 0int,
{
    let n = match ident_at_x(ts, i) {
        None => {
            return Err(ParseError::Syntax(i));
        },
        Some(n) => n,
    };
    let ty: Result<(Option<String>, usize), ParseError> = if is_sym_x(ts, i + 1, Sym::Colon) {
        match p_type_x(ts, i + 2) {
            Ok((t, j)) => Ok((Some(t), j)),
            Err(x) => Err(x),
        }
    } else {
        Ok((None, i + 1))
    };
    let (t, j) = match ty {
        Err(x) => {
            return Err(x);
        },
        Ok(p) => p,
    };
    let ghost head = (n@, view_opt_str(t));
    let mut v: Vec<(String, Option<String>)> = Vec::new();
    v.push((n, t));
    assert(view_params(v@) =~= seq![head]);
    if is_sym_x(ts, j, Sym::Comma) && i < j && j < ts.len() {
        match p_param_list_x(ts, j + 1) {
            Err(x) => Err(x),
            Ok((rest, k)) => {
                let ghost r0 = rest@;
                let ghost v0 = v@;
                let mut rest = rest;
                v.append(&mut rest);
                assert(view_params(v@) =~= view_params(v0) + view_params(r0));
                Ok((v, k))
            },
        }
    } else if is_sym_x(ts, j, Sym::RParen) {
        Ok((v, j + 1))
    } else {
        Err(ParseError::Syntax(j))
    }
}

fn p_fn_x(ts: &Vec<Token>, i: usize) -> (r: Result<(Stmt, usize), ParseError>)
    ensures
        stmt_res(r) == p_fn(view_tokens(ts@), i as int),
    decreases ts@.len() - i, 7int,
{
    let k = match skip_decorators_x(ts, i) {
        Err(x) => {
            return Err(x);
        },
        Ok(k) => k,
    };
    if !(i <= k && is_sym_x(ts, k, Sym::Fn)) {
        return Err(ParseError::Syntax(k));
    }
    let name = match ident_at_x(ts, k + 1) {
        None => {
            return Err(ParseError::Syntax(k + 1));
        },
        Some(name) => name,
    };
    if !is_sym_x(ts, k + 2, Sym::LParen) {
        return Err(ParseError::Syntax(k + 2));
    }
    let (params, j) = match p_params_x(ts, k + 3) {
        Err(x) => {
            return Err(x);
        },
        Ok(p) => p,
    };
    let rt: Result<(Option<String>, usize), ParseError> = if is_sym_x(ts, j, Sym::Arrow) {
        match p_type_x(ts, j + 1) {
            Ok((t, m)) => Ok((Some(t), m)),
            Err(x) => Err(x),
        }
    } else {
        Ok((None, j))
    };
    let (t, m) = match rt {
        Err(x) => {
            return Err(x);
        },
        Ok(p) => p,
    };
    if i < m && m <= ts.len() {
        match p_block_x(ts, m) {
            Err(x) => Err(x),
            Ok((body, e)) => Ok(
                (Stmt::FnDecl { name, params, return_type: t, body: Rc::new(body) }, e),
            ),
        }
    } else {
        Err(ParseError::Syntax(i))
    }
}

fn p_if_x(ts: &Vec<Token>, i: usize) -> (r: Result<(Stmt, usize), ParseError>)
    ensures
        stmt_res(r) == p_if(view_tokens(ts@), i as int),
    decreases ts@.len() - i, 7int,
{
    if !is_sym_x(ts, i, Sym::If) {
        return Err(ParseError::Syntax(i));
    }
    let (c, j) = match p_expr_x(ts, i + 1) {
        Err(x) => {
            return Err(x);
        },
        Ok(p) => p,
    };
    if !(i < j && j <= ts.len()) {
        return Err(ParseError::Syntax(i));
    }
    let (t, k) = match p_block_x(ts, j) {
        Err(x) => {
            return Err(x);
        },
        Ok(p) => p,
    };
    if is_sym_x(ts, k, Sym::Else) && i < k {
        if is_sym_x(ts, k + 1, Sym::If) {
            match p_if_x(ts, k + 1) {
                Err(x) => Err(x),
                Ok((st, m)) => {
                    let ghost sv = view_stmt(st);
                    let mut eb: Vec<Stmt> = Vec::new();
                    eb.push(st);
                    assert(view_stmts(eb@) =~= seq![sv]);
                    Ok((Stmt::If { condition: c, then_branch: t, else_branch: Some(eb) }, m))
                },
            }
        } else {
            match p_block_x(ts, k + 1) {
                Err(x) => Err(x),
                Ok((eb, m)) => Ok(
                    (Stmt::If { condition: c, then_branch: t, else_branch: Some(eb) }, m),
                ),
            }
        }
    } else {
        Ok((Stmt::If { condition: c, then_branch: t, else_branch: None }, k))
    }
}

#[verifier::spinoff_prover]
#[verifier::rlimit(40)]
fn p_stmt_x(ts: &Vec<Token>, i: usize) -> (r: Result<(Stmt, usize), ParseError>)
    ensures
        stmt_res(r) == p_stmt(view_tokens(ts@), i as int),
    decreases ts@.len() - i, 8int,
{
    if i >= ts.len() {
        return Err(ParseError::Syntax(i));
    }
    match sym_at_x(ts, i) {
        Some(Sym::Import) => match ident_at_x(ts, i + 1) {
            None => Err(ParseError::Syntax(i + 1)),
            Some(m) => if is_sym_x(ts, i + 2, Sym::From) {
                if i + 3 < ts.len() {
                    assert(view_tokens(ts@)[i + 3] == view_token(ts@[i + 3]));
                    match &ts[i + 3] {
                        Token::Str(path) => Ok(
                            (
                                Stmt::Import { module: m, path: Some(path.clone()) },
                                skip_semi_x(ts, i + 4),
                            ),
                        ),
                        _ => Err(ParseError::Syntax(i + 3)),
                    }
                } else {
                    Err(ParseError::Syntax(i + 3))
                }
            } else {
                Ok((Stmt::Import { module: m, path: None }, skip_semi_x(ts, i + 2)))
            },
        },
        Some(Sym::Let) => match ident_at_x(ts, i + 1) {
            None => Err(ParseError::Syntax(i + 1)),
            Some(name) => {
                let ty: Result<(Option<String>, usize), ParseError> = if is_sym_x(
                    ts,
                    i + 2,
                    Sym::Colon,
                ) {
                    match p_type_x(ts, i + 3) {
                        Ok((t, j)) => Ok((Some(t), j)),
                        Err(x) => Err(x),
                    }
                } else {
                    Ok((None, i + 2))
                };
                match ty {
                    Err(x) => Err(x),
                    Ok((t, j)) => if is_sym_x(ts, j, Sym::Assign) && i < j {
                        match p_expr_x(ts, j + 1) {
                            Err(x) => Err(x),
                            Ok((e, k)) => Ok(
                                (
                                    Stmt::Let { name, type_annotation: t, init: e },
                                    skip_semi_x(ts, k),
                                ),
                            ),
                        }
                    } else {
                        Err(ParseError::Syntax(j))
                    },
                }
            },
        },
        Some(Sym::At) => p_fn_x(ts, i),
        Some(Sym::Fn) => p_fn_x(ts, i),
        Some(Sym::If) => p_if_x(ts, i),
        Some(Sym::While) => match p_expr_x(ts, i + 1) {
            Err(x) => Err(x),
            Ok((c, j)) => if i < j && j <= ts.len() {
                match p_block_x(ts, j) {
                    Err(x) => Err(x),
                    Ok((b, k)) => Ok((Stmt::While { condition: c, body: b }, k)),
                }
            } else {
                Err(ParseError::Syntax(i))
            },
        },
        Some(Sym::For) => match ident_at_x(ts, i + 1) {
            None => Err(ParseError::Syntax(i + 1)),
            Some(v) => if !is_sym_x(ts, i + 2, Sym::In) {
                Err(ParseError::Syntax(i + 2))
            } else {
                match p_expr_x(ts, i + 3) {
                    Err(x) => Err(x),
                    Ok((it, j)) => if i < j && j <= ts.len() {
                        match p_block_x(ts, j) {
                            Err(x) => Err(x),
                            Ok((b, k)) => Ok((Stmt::For { var: v, iterable: it, body: b }, k)),
                        }
                    } else {
                        Err(ParseError::Syntax(i))
                    },
                }
            },
        },
        Some(Sym::Return) => if i + 1 >= ts.len() || is_sym_x(ts, i + 1, Sym::Semi) || is_sym_x(
            ts,
            i + 1,
            Sym::RBrace,
        ) {
            Ok((Stmt::Return(None), skip_semi_x(ts, i + 1)))
        } else {
            match p_expr_x(ts, i + 1) {
                Err(x) => Err(x),
                Ok((e, j)) => Ok((Stmt::Return(Some(e)), skip_semi_x(ts, j))),
            }
        },
        _ => {
            let id = ident_at_x(ts, i);
            if id.is_some() && is_sym_x(ts, i + 1, Sym::Assign) {
                let name = id.unwrap();
                match p_expr_x(ts, i + 2) {
                    Err(x) => Err(x),
                    Ok((e, j)) => Ok((Stmt::Assign { name, value: e }, skip_semi_x(ts, j))),
                }
            } else {
                match p_expr_x(ts, i) {
                    Err(x) => Err(x),
                    Ok((e, j)) => Ok((Stmt::Expr(e), skip_semi_x(ts, j))),
                }
            }
        },
    }
}

/// A NovaWeb source text cut into tokens, ready to be parsed.
pub struct NovaParser {
    tokens: Vec<Token>,
}

impl View for NovaParser {
    type V = Seq<TokenM>;

    closed spec fn view(&self) -> Seq<TokenM> {
        view_tokens(self.tokens@)
    }
}

impl NovaParser {
    /// Cuts a text into tokens; fails with the position of a character that
    /// starts no token.
    pub fn new(input: &str) -> (r: Result<NovaParser, ParseError>)
        ensures
            match (r, lex(input@)) {
                (Ok(p), Ok(ts)) => p@ == ts,
                (Err(e), Err(q)) => e == ParseError::Lex(q as usize),
                _ => false,
            },
    {
        match tokenize(input) {
            Ok(tokens) => Ok(NovaParser { tokens }),
            Err(q) => Err(ParseError::Lex(q)),
        }
    }

    /// The statements of the whole text.
    pub fn program(&self) -> (r: Result<Vec<Stmt>, ParseError>)
        ensures
            match (r, p_stmts(self@, 0, false)) {
                (Ok(v), Ok((m, _))) => view_stmts(v@) == m,
                (Err(e), Err(x)) => e == x,
                _ => false,
            },
    {
        match p_stmts_x(&self.tokens, 0, false) {
            Ok((v, _)) => Ok(v),
            Err(x) => Err(x),
        }
    }

    /// The expression with which the text begins.
    pub fn expression(&self) -> (r: Result<Expr, ParseError>)
        ensures
            match (r, p_expr(self@, 0)) {
                (Ok(e), Ok((m, _))) => view_expr(e) == m,
                (Err(e), Err(x)) => e == x,
                _ => false,
            },
    {
        match p_expr_x(&self.tokens, 0) {
            Ok((e, _)) => Ok(e),
            Err(x) => Err(x),
        }
    }
}

/// Parses a NovaWeb program.
pub fn parse(input: &str) -> (r: Result<Vec<Stmt>, ParseError>)
    ensures
        match (r, spec_parse(input@)) {
            (Ok(v), Ok(m)) => view_stmts(v@) == m,
            (Err(e), Err(x)) => e == x,
            _ => false,
        },
{
    let p = NovaParser::new(input)?;
    p.program()
}

/// Parses the expression with which a text begins; what follows it is
/// ignored, and a character that starts no token ends the text.
pub fn parse_expression_only(input: &str) -> (r: Result<Expr, ParseError>)
    ensures
        match (r, spec_parse_expression(input@)) {
            (Ok(e), Ok(m)) => view_expr(e) == m,
            (Err(e), Err(x)) => e == x,
            _ => false,
        },
{
    let tokens = tokenize_prefix(input);
    match p_expr_x(&tokens, 0) {
        Ok((e, _)) => Ok(e),
        Err(x) => Err(x),
    }
}

} // verus!
