//! The tokens of NovaWeb source text.

use crate::text::{chars_of, push_char, same_text};
use vstd::prelude::*;

verus! {

/// Punctuation, operators, keywords, and the marks of an interpolated string.
#[derive(Clone, Copy, PartialEq, Eq, Structural, Debug)]
pub enum Sym {
    LParen,
    RParen,
    LBracket,
    RBracket,
    LBrace,
    RBrace,
    Comma,
    Colon,
    Semi,
    Dot,
    QDot,
    QBracket,
    Assign,
    EqEq,
    NotEq,
    Lt,
    Gt,
    Le,
    Ge,
    Plus,
    Minus,
    Star,
    Slash,
    AndAnd,
    OrOr,
    Bang,
    Arrow,
    At,
    Pipe,
    Let,
    Fn,
    If,
    Else,
    While,
    For,
    In,
    Return,
    Import,
    From,
    True,
    False,
    Null,
    /// `f"`: an interpolated string begins.
    FStrStart,
    /// The closing quote of an interpolated string.
    FStrEnd,
    /// `{` inside an interpolated string.
    CodeOpen,
    /// `}` inside an interpolated string.
    CodeClose,
}

pub enum Token {
    /// Decimal digits.
    Int(String),
    /// Digits, a dot, digits.
    Float(String),
    /// The text between the quotes of a string literal.
    Str(String),
    /// Literal text inside an interpolated string.
    FText(String),
    Ident(String),
    Sym(Sym),
}

pub ghost enum TokenM {
    Int(Seq<char>),
    Float(Seq<char>),
    Str(Seq<char>),
    FText(Seq<char>),
    Ident(Seq<char>),
    Sym(Sym),
}

pub open spec fn view_token(t: Token) -> TokenM {
    match t {
        Token::Int(s) => TokenM::Int(s@),
        Token::Float(s) => TokenM::Float(s@),
        Token::Str(s) => TokenM::Str(s@),
        Token::FText(s) => TokenM::FText(s@),
        Token::Ident(s) => TokenM::Ident(s@),
        Token::Sym(x) => TokenM::Sym(x),
    }
}

pub open spec fn view_tokens(s: Seq<Token>) -> Seq<TokenM> {
    s.map_values(|t: Token| view_token(t))
}

pub proof fn lemma_view_tokens_concat(a: Seq<Token>, b: Seq<Token>)
    ensures
        view_tokens(a + b) == view_tokens(a) + view_tokens(b),
{
    assert(view_tokens(a + b) =~= view_tokens(a) + view_tokens(b));
}

pub open spec fn is_digit(c: char) -> bool {
    '0' <= c <= '9'
}

pub open spec fn is_alpha(c: char) -> bool {
    ('a' <= c <= 'z') || ('A' <= c <= 'Z') || c == '_'
}

pub open spec fn is_space(c: char) -> bool {
    c == ' ' || c == '\t' || c == '\n' || c == '\r'
}

/// What a scan runs over.
#[derive(Clone, Copy, PartialEq, Eq, Structural, Debug)]
pub enum Scan {
    Digits,
    IdentChars,
    NotQuote,
    Text,
    NotBrace,
    NotNewline,
}

pub open spec fn scan_continues(k: Scan, c: char) -> bool {
    match k {
        Scan::Digits => is_digit(c),
        Scan::IdentChars => is_alpha(c) || is_digit(c),
        Scan::NotQuote => c != '"',
        Scan::Text => c != '{' && c != '"',
        Scan::NotBrace => c != '}',
        Scan::NotNewline => c != '\n',
    }
}

/// The first position from `i` (before `end`) whose character ends the scan, or `end`.
pub open spec fn scan_end(cs: Seq<char>, i: int, end: int, k: Scan) -> int
    decreases end - i,
{
    if i >= end || !scan_continues(k, cs[i]) {
        i
    } else {
        scan_end(cs, i + 1, end, k)
    }
}

/// The first position from `i` that is neither blank nor inside a `//` comment.
pub open spec fn skip_space(cs: Seq<char>, i: int, end: int) -> int
    decreases end - i,
{
    if i >= end {
        i
    } else if is_space(cs[i]) {
        skip_space(cs, i + 1, end)
    } else if i + 1 < end && cs[i] == '/' && cs[i + 1] == '/' {
        let e = scan_end(cs, i + 2, end, Scan::NotNewline);
        if i < e <= end {
            skip_space(cs, e, end)
        } else {
            i
        }
    } else {
        i
    }
}

/// The symbol written with two characters, if any.
pub open spec fn sym2(a: char, b: char) -> Option<Sym> {
    if a == '=' && b == '=' {
        Some(Sym::EqEq)
    } else if a == '!' && b == '=' {
        Some(Sym::NotEq)
    } else if a == '<' && b == '=' {
        Some(Sym::Le)
    } else if a == '>' && b == '=' {
        Some(Sym::Ge)
    } else if a == '&' && b == '&' {
        Some(Sym::AndAnd)
    } else if a == '|' && b == '|' {
        Some(Sym::OrOr)
    } else if a == '-' && b == '>' {
        Some(Sym::Arrow)
    } else if a == '?' && b == '.' {
        Some(Sym::QDot)
    } else if a == '?' && b == '[' {
        Some(Sym::QBracket)
    } else {
        None
    }
}

/// The symbol written with one character, if any.
pub open spec fn sym1(a: char) -> Option<Sym> {
    if a == '(' {
        Some(Sym::LParen)
    } else if a == ')' {
        Some(Sym::RParen)
    } else if a == '[' {
        Some(Sym::LBracket)
    } else if a == ']' {
        Some(Sym::RBracket)
    } else if a == '{' {
        Some(Sym::LBrace)
    } else if a == '}' {
        Some(Sym::RBrace)
    } else if a == ',' {
        Some(Sym::Comma)
    } else if a == ':' {
        Some(Sym::Colon)
    } else if a == ';' {
        Some(Sym::Semi)
    } else if a == '.' {
        Some(Sym::Dot)
    } else if a == '=' {
        Some(Sym::Assign)
    } else if a == '<' {
        Some(Sym::Lt)
    } else if a == '>' {
        Some(Sym::Gt)
    } else if a == '+' {
        Some(Sym::Plus)
    } else if a == '-' {
        Some(Sym::Minus)
    } else if a == '*' {
        Some(Sym::Star)
    } else if a == '/' {
        Some(Sym::Slash)
    } else if a == '!' {
        Some(Sym::Bang)
    } else if a == '@' {
        Some(Sym::At)
    } else if a == '|' {
        Some(Sym::Pipe)
    } else {
        None
    }
}

/// The keyword spelled by a word, if any.
pub open spec fn keyword(w: Seq<char>) -> Option<Sym> {
    if w == "let"@ {
        Some(Sym::Let)
    } else if w == "fn"@ {
        Some(Sym::Fn)
    } else if w == "if"@ {
        Some(Sym::If)
    } else if w == "else"@ {
        Some(Sym::Else)
    } else if w == "while"@ {
        Some(Sym::While)
    } else if w == "for"@ {
        Some(Sym::For)
    } else if w == "in"@ {
        Some(Sym::In)
    } else if w == "return"@ {
        Some(Sym::Return)
    } else if w == "import"@ {
        Some(Sym::Import)
    } else if w == "from"@ {
        Some(Sym::From)
    } else if w == "true"@ {
        Some(Sym::True)
    } else if w == "false"@ {
        Some(Sym::False)
    } else if w == "null"@ {
        Some(Sym::Null)
    } else {
        None
    }
}

/// The tokens of `cs[i..end]`, or the position of the first character that starts no token.
pub open spec fn lex_from(cs: Seq<char>, i: int, end: int) -> Result<Seq<TokenM>, int>
    decreases end - i, 1int,
{
    let j = skip_space(cs, i, end);
    if j >= end || j < i {
        Ok(Seq::empty())
    } else {
        match token_at(cs, j, end) {
            Err(p) => Err(p),
            Ok((t, k)) => if j < k <= end {
                match lex_from(cs, k, end) {
                    Ok(rest) => Ok(t + rest),
                    Err(p) => Err(p),
                }
            } else {
                Err(j)
            },
        }
    }
}

/// The token (or, for an interpolated string, the tokens) that starts at `j`, and
/// where it ends.
pub open spec fn token_at(cs: Seq<char>, j: int, end: int) -> Result<(Seq<TokenM>, int), int>
    decreases end - j, 0int,
{
    if j < 0 || j >= end {
        Err(j)
    } else {
        let c = cs[j];
        if is_digit(c) {
            let k = scan_end(cs, j, end, Scan::Digits);
            if k + 1 < end && cs[k] == '.' && is_digit(cs[k + 1]) {
                let m = scan_end(cs, k + 1, end, Scan::Digits);
                Ok((seq![TokenM::Float(cs.subrange(j, m))], m))
            } else {
                Ok((seq![TokenM::Int(cs.subrange(j, k))], k))
            }
        } else if c == '"' {
            let q = scan_end(cs, j + 1, end, Scan::NotQuote);
            if q >= end {
                Err(j)
            } else {
                Ok((seq![TokenM::Str(cs.subrange(j + 1, q))], q + 1))
            }
        } else if c == 'f' && j + 1 < end && cs[j + 1] == '"' {
            match fstr(cs, j + 2, end) {
                Ok((ts, e)) => Ok((seq![TokenM::Sym(Sym::FStrStart)] + ts, e)),
                Err(p) => Err(p),
            }
        } else if is_alpha(c) {
            let k = scan_end(cs, j, end, Scan::IdentChars);
            let w = cs.subrange(j, k);
            match keyword(w) {
                Some(s) => Ok((seq![TokenM::Sym(s)], k)),
                None => Ok((seq![TokenM::Ident(w)], k)),
            }
        } else if j + 1 < end && sym2(c, cs[j + 1]) is Some {
            Ok((seq![TokenM::Sym(sym2(c, cs[j + 1]).unwrap())], j + 2))
        } else {
            match sym1(c) {
                Some(s) => Ok((seq![TokenM::Sym(s)], j + 1)),
                None => Err(j),
            }
        }
    }
}

/// The tokens of the rest of an interpolated string from `i`, up to and with its
/// closing quote; `{code}` holds the tokens of an expression.
pub open spec fn fstr(cs: Seq<char>, i: int, end: int) -> Result<(Seq<TokenM>, int), int>
    decreases end - i, 0int,
{
    if i < 0 || i >= end {
        Err(i)
    } else if cs[i] == '"' {
        Ok((seq![TokenM::Sym(Sym::FStrEnd)], i + 1))
    } else if cs[i] == '{' {
        let b = scan_end(cs, i + 1, end, Scan::NotBrace);
        if b >= end || b < i + 1 {
            Err(i)
        } else {
            match lex_from(cs, i + 1, b) {
                Err(p) => Err(p),
                Ok(code) => match fstr(cs, b + 1, end) {
                    Ok((rest, e)) => Ok(
                        (
                            seq![TokenM::Sym(Sym::CodeOpen)] + code + seq![TokenM::Sym(Sym::CodeClose)]
                                + rest,
                            e,
                        ),
                    ),
                    Err(p) => Err(p),
                },
            }
        }
    } else {
        let k = scan_end(cs, i, end, Scan::Text);
        if i < k <= end {
            match fstr(cs, k, end) {
                Ok((rest, e)) => Ok((seq![TokenM::FText(cs.subrange(i, k))] + rest, e)),
                Err(p) => Err(p),
            }
        } else {
            Err(i)
        }
    }
}

/// The tokens of a text, or the position of the first character that starts no token.
pub open spec fn lex(cs: Seq<char>) -> Result<Seq<TokenM>, int> {
    lex_from(cs, 0, cs.len() as int)
}

/// The tokens of `cs[i..end]` up to the first character that starts no token.
pub open spec fn lex_prefix(cs: Seq<char>, i: int, end: int) -> Seq<TokenM>
    decreases end - i,
{
    let j = skip_space(cs, i, end);
    if j >= end || j < i {
        Seq::empty()
    } else {
        match token_at(cs, j, end) {
            Err(_) => Seq::empty(),
            Ok((t, k)) => if j < k <= end {
                t + lex_prefix(cs, k, end)
            } else {
                Seq::empty()
            },
        }
    }
}

/// Where the whole text cuts into tokens, its prefix of tokens is all of them.
pub proof fn lemma_lex_prefix_whole(cs: Seq<char>, i: int, end: int)
    ensures
        lex_from(cs, i, end) matches Ok(ts) ==> lex_prefix(cs, i, end) == ts,
    decreases end - i,
{
    let j = skip_space(cs, i, end);
    if !(j >= end || j < i) {
        match token_at(cs, j, end) {
            Ok((t, k)) => if j < k <= end {
                lemma_lex_prefix_whole(cs, k, end);
            },
            Err(_) => {},
        }
    }
}


pub proof fn lemma_scan_bounds(cs: Seq<char>, i: int, end: int, k: Scan)
    requires
        i <= end,
    ensures
        i <= scan_end(cs, i, end, k) <= end,
        scan_end(cs, i, end, k) < end ==> !scan_continues(k, cs[scan_end(cs, i, end, k)]),
    decreases end - i,
{
    if i < end && scan_continues(k, cs[i]) {
        lemma_scan_bounds(cs, i + 1, end, k);
    }
}

pub proof fn lemma_skip_bounds(cs: Seq<char>, i: int, end: int)
    requires
        i <= end,
    ensures
        i <= skip_space(cs, i, end) <= end,
    decreases end - i,
{
    if i < end {
        if is_space(cs[i]) {
            lemma_skip_bounds(cs, i + 1, end);
        } else if i + 1 < end && cs[i] == '/' && cs[i + 1] == '/' {
            lemma_scan_bounds(cs, i + 2, end, Scan::NotNewline);
            let e = scan_end(cs, i + 2, end, Scan::NotNewline);
            lemma_skip_bounds(cs, e, end);
        }
    }
}

fn scan_continues_exec(k: Scan, c: char) -> (r: bool)
    ensures
        r == scan_continues(k, c),
{
    match k {
        Scan::Digits => '0' <= c && c <= '9',
        Scan::IdentChars => ('a' <= c && c <= 'z') || ('A' <= c && c <= 'Z') || c == '_' || ('0' <= c
            && c <= '9'),
        Scan::NotQuote => c != '"',
        Scan::Text => c != '{' && c != '"',
        Scan::NotBrace => c != '}',
        Scan::NotNewline => c != '\n',
    }
}

fn scan(cs: &Vec<char>, i: usize, end: usize, k: Scan) -> (r: usize)
    requires
        i <= end <= cs.len(),
    ensures
        r as int == scan_end(cs@, i as int, end as int, k),
        i <= r <= end,
{
    let mut j = i;
    while j < end && scan_continues_exec(k, cs[j])
        invariant
            i <= j <= end <= cs.len(),
            scan_end(cs@, i as int, end as int, k) == scan_end(cs@, j as int, end as int, k),
        decreases end - j,
    {
        j = j + 1;
    }
    j
}

fn skip(cs: &Vec<char>, i: usize, end: usize) -> (r: usize)
    requires
        i <= end <= cs.len(),
    ensures
        r as int == skip_space(cs@, i as int, end as int),
        i <= r <= end,
{
    let mut j = i;
    loop
        invariant
            i <= j <= end <= cs.len(),
            skip_space(cs@, i as int, end as int) == skip_space(cs@, j as int, end as int),
        decreases end - j,
    {
        if j >= end {
            return j;
        }
        let c = cs[j];
        if c == ' ' || c == '\t' || c == '\n' || c == '\r' {
            j = j + 1;
        } else if j + 1 < end && c == '/' && cs[j + 1] == '/' {
            let e = scan(cs, j + 2, end, Scan::NotNewline);
            j = e;
        } else {
            return j;
        }
    }
}

/// The text of `cs[a..b]`.
pub fn range_string(cs: &Vec<char>, a: usize, b: usize) -> (r: String)
    requires
        a <= b <= cs.len(),
    ensures
        r@ == cs@.subrange(a as int, b as int),
{
    let mut r = String::new();
    let mut i = a;
    while i < b
        invariant
            a <= i <= b <= cs.len(),
            r@ == cs@.subrange(a as int, i as int),
        decreases b - i,
    {
        push_char(&mut r, cs[i]);
        assert(cs@.subrange(a as int, i + 1) =~= cs@.subrange(a as int, i as int).push(cs@[i as int]));
        i = i + 1;
    }
    r
}

fn sym2_exec(a: char, b: char) -> (r: Option<Sym>)
    ensures
        r == sym2(a, b),
{
    if a == '=' && b == '=' {
        Some(Sym::EqEq)
    } else if a == '!' && b == '=' {
        Some(Sym::NotEq)
    } else if a == '<' && b == '=' {
        Some(Sym::Le)
    } else if a == '>' && b == '=' {
        Some(Sym::Ge)
    } else if a == '&' && b == '&' {
        Some(Sym::AndAnd)
    } else if a == '|' && b == '|' {
        Some(Sym::OrOr)
    } else if a == '-' && b == '>' {
        Some(Sym::Arrow)
    } else if a == '?' && b == '.' {
        Some(Sym::QDot)
    } else if a == '?' && b == '[' {
        Some(Sym::QBracket)
    } else {
        None
    }
}

fn sym1_exec(a: char) -> (r: Option<Sym>)
    ensures
        r == sym1(a),
{
    if a == '(' {
        Some(Sym::LParen)
    } else if a == ')' {
        Some(Sym::RParen)
    } else if a == '[' {
        Some(Sym::LBracket)
    } else if a == ']' {
        Some(Sym::RBracket)
    } else if a == '{' {
        Some(Sym::LBrace)
    } else if a == '}' {
        Some(Sym::RBrace)
    } else if a == ',' {
        Some(Sym::Comma)
    } else if a == ':' {
        Some(Sym::Colon)
    } else if a == ';' {
        Some(Sym::Semi)
    } else if a == '.' {
        Some(Sym::Dot)
    } else if a == '=' {
        Some(Sym::Assign)
    } else if a == '<' {
        Some(Sym::Lt)
    } else if a == '>' {
        Some(Sym::Gt)
    } else if a == '+' {
        Some(Sym::Plus)
    } else if a == '-' {
        Some(Sym::Minus)
    } else if a == '*' {
        Some(Sym::Star)
    } else if a == '/' {
        Some(Sym::Slash)
    } else if a == '!' {
        Some(Sym::Bang)
    } else if a == '@' {
        Some(Sym::At)
    } else if a == '|' {
        Some(Sym::Pipe)
    } else {
        None
    }
}

fn keyword_exec(w: &str) -> (r: Option<Sym>)
    ensures
        r == keyword(w@),
{
    if same_text(w, "let") {
        Some(Sym::Let)
    } else if same_text(w, "fn") {
        Some(Sym::Fn)
    } else if same_text(w, "if") {
        Some(Sym::If)
    } else if same_text(w, "else") {
        Some(Sym::Else)
    } else if same_text(w, "while") {
        Some(Sym::While)
    } else if same_text(w, "for") {
        Some(Sym::For)
    } else if same_text(w, "in") {
        Some(Sym::In)
    } else if same_text(w, "return") {
        Some(Sym::Return)
    } else if same_text(w, "import") {
        Some(Sym::Import)
    } else if same_text(w, "from") {
        Some(Sym::From)
    } else if same_text(w, "true") {
        Some(Sym::True)
    } else if same_text(w, "false") {
        Some(Sym::False)
    } else if same_text(w, "null") {
        Some(Sym::Null)
    } else {
        None
    }
}

pub open spec fn tok_res(r: Result<(Vec<Token>, usize), usize>) -> Result<(Seq<TokenM>, int), int> {
    match r {
        Ok((v, e)) => Ok((view_tokens(v@), e as int)),
        Err(p) => Err(p as int),
    }
}

pub open spec fn toks_res(r: Result<Vec<Token>, usize>) -> Result<Seq<TokenM>, int> {
    match r {
        Ok(v) => Ok(view_tokens(v@)),
        Err(p) => Err(p as int),
    }
}

fn one(t: Token) -> (r: Vec<Token>)
    ensures
        view_tokens(r@) == seq![view_token(t)],
{
    let mut v: Vec<Token> = Vec::new();
    v.push(t);
    assert(view_tokens(v@) =~= seq![view_token(t)]);
    v
}

fn token_at_exec(cs: &Vec<char>, j: usize, end: usize) -> (r: Result<(Vec<Token>, usize), usize>)
    requires
        j < end <= cs.len(),
    ensures
        tok_res(r) == token_at(cs@, j as int, end as int),
    decreases end - j, 0nat,
{
    let c = cs[j];
    if '0' <= c && c <= '9' {
        let k = scan(cs, j, end, Scan::Digits);
        if end - k > 1 && cs[k] == '.' && '0' <= cs[k + 1] && cs[k + 1] <= '9' {
            let m = scan(cs, k + 1, end, Scan::Digits);
            Ok((one(Token::Float(range_string(cs, j, m))), m))
        } else {
            Ok((one(Token::Int(range_string(cs, j, k))), k))
        }
    } else if c == '"' {
        let q = scan(cs, j + 1, end, Scan::NotQuote);
        if q >= end {
            Err(j)
        } else {
            Ok((one(Token::Str(range_string(cs, j + 1, q))), q + 1))
        }
    } else if c == 'f' && j + 1 < end && cs[j + 1] == '"' {
        match fstr_exec(cs, j + 2, end) {
            Ok((ts, e)) => {
                let mut v = one(Token::Sym(Sym::FStrStart));
                let ghost a = view_tokens(v@);
                let ghost b = view_tokens(ts@);
                let mut ts = ts;
                let ghost vs = v@;
                let ghost tss = ts@;
                v.append(&mut ts);
                proof {
                    lemma_view_tokens_concat(vs, tss);
                }
                Ok((v, e))
            },
            Err(p) => Err(p),
        }
    } else if ('a' <= c && c <= 'z') || ('A' <= c && c <= 'Z') || c == '_' {
        let k = scan(cs, j, end, Scan::IdentChars);
        let w = range_string(cs, j, k);
        match keyword_exec(w.as_str()) {
            Some(s) => Ok((one(Token::Sym(s)), k)),
            None => Ok((one(Token::Ident(w)), k)),
        }
    } else {
        if j + 1 < end {
            match sym2_exec(c, cs[j + 1]) {
                Some(s) => {
                    return Ok((one(Token::Sym(s)), j + 2));
                },
                None => {},
            }
        }
        match sym1_exec(c) {
            Some(s) => Ok((one(Token::Sym(s)), j + 1)),
            None => Err(j),
        }
    }
}

fn fstr_exec(cs: &Vec<char>, i: usize, end: usize) -> (r: Result<(Vec<Token>, usize), usize>)
    requires
        i <= end <= cs.len(),
    ensures
        tok_res(r) == fstr(cs@, i as int, end as int),
    decreases end - i, 0nat,
{
    if i >= end {
        return Err(i);
    }
    if cs[i] == '"' {
        return Ok((one(Token::Sym(Sym::FStrEnd)), i + 1));
    }
    if cs[i] == '{' {
        let b = scan(cs, i + 1, end, Scan::NotBrace);
        if b >= end {
            return Err(i);
        }
        let code = match lex_range(cs, i + 1, b) {
            Ok(code) => code,
            Err(p) => {
                return Err(p);
            },
        };
        let (rest, e) = match fstr_exec(cs, b + 1, end) {
            Ok(x) => x,
            Err(p) => {
                return Err(p);
            },
        };
        let mut v = one(Token::Sym(Sym::CodeOpen));
        let ghost v0 = v@;
        let ghost c0 = code@;
        let ghost r0 = rest@;
        let mut code = code;
        v.append(&mut code);
        let mut close = one(Token::Sym(Sym::CodeClose));
        let ghost cl = close@;
        v.append(&mut close);
        let mut rest = rest;
        v.append(&mut rest);
        proof {
            assert(v@ == v0 + c0 + cl + r0);
            lemma_view_tokens_concat(v0, c0);
            lemma_view_tokens_concat(v0 + c0, cl);
            lemma_view_tokens_concat(v0 + c0 + cl, r0);
        }
        return Ok((v, e));
    }
    let k = scan(cs, i, end, Scan::Text);
    if k <= i {
        return Err(i);
    }
    let (rest, e) = match fstr_exec(cs, k, end) {
        Ok(x) => x,
        Err(p) => {
            return Err(p);
        },
    };
    let mut v = one(Token::FText(range_string(cs, i, k)));
    let ghost v0 = v@;
    let ghost r0 = rest@;
    let mut rest = rest;
    v.append(&mut rest);
    proof {
        lemma_view_tokens_concat(v0, r0);
    }
    Ok((v, e))
}

/// The tokens of `cs[i..end]` (see `lex_from`).
fn lex_range(cs: &Vec<char>, i: usize, end: usize) -> (r: Result<Vec<Token>, usize>)
    requires
        i <= end <= cs.len(),
    ensures
        toks_res(r) == lex_from(cs@, i as int, end as int),
    decreases end - i, 1nat,
{
    let mut out: Vec<Token> = Vec::new();
    let mut p = i;
    assert(view_tokens(out@) =~= Seq::<TokenM>::empty());
    loop
        invariant
            i <= p <= end <= cs.len(),
            lex_from(cs@, i as int, end as int) == match lex_from(cs@, p as int, end as int) {
                Ok(rest) => Ok(view_tokens(out@) + rest),
                Err(q) => Err(q),
            },
        decreases end - p,
    {
        let j = skip(cs, p, end);
        if j >= end {
            assert(view_tokens(out@) + Seq::<TokenM>::empty() =~= view_tokens(out@));
            return Ok(out);
        }
        let (ts, k) = match token_at_exec(cs, j, end) {
            Ok(x) => x,
            Err(q) => {
                return Err(q);
            },
        };
        if k <= j || k > end {
            return Err(j);
        }
        let ghost o0 = out@;
        let ghost t0 = ts@;
        let mut ts = ts;
        out.append(&mut ts);
        proof {
            lemma_view_tokens_concat(o0, t0);
            match lex_from(cs@, k as int, end as int) {
                Ok(rest) => {
                    assert(view_tokens(o0) + (view_tokens(t0) + rest) =~= view_tokens(out@) + rest);
                },
                Err(_) => {},
            }
        }
        p = k;
    }
}

/// The tokens of `cs[i..end]` up to the first character that starts no token
/// (see `lex_prefix`).
fn lex_prefix_range(cs: &Vec<char>, i: usize, end: usize) -> (r: Vec<Token>)
    requires
        i <= end <= cs.len(),
    ensures
        view_tokens(r@) == lex_prefix(cs@, i as int, end as int),
{
    let mut out: Vec<Token> = Vec::new();
    let mut p = i;
    assert(view_tokens(out@) =~= Seq::<TokenM>::empty());
    loop
        invariant
            i <= p <= end <= cs.len(),
            lex_prefix(cs@, i as int, end as int) == view_tokens(out@) + lex_prefix(cs@, p as int, end as int),
        decreases end - p,
    {
        let j = skip(cs, p, end);
        if j >= end {
            assert(view_tokens(out@) + Seq::<TokenM>::empty() =~= view_tokens(out@));
            return out;
        }
        let (ts, k) = match token_at_exec(cs, j, end) {
            Ok(x) => x,
            Err(_) => {
                assert(view_tokens(out@) + Seq::<TokenM>::empty() =~= view_tokens(out@));
                return out;
            },
        };
        if k <= j || k > end {
            assert(view_tokens(out@) + Seq::<TokenM>::empty() =~= view_tokens(out@));
            return out;
        }
        let ghost o0 = out@;
        let ghost t0 = ts@;
        let mut ts = ts;
        out.append(&mut ts);
        proof {
            lemma_view_tokens_concat(o0, t0);
            assert(view_tokens(o0) + (view_tokens(t0) + lex_prefix(cs@, k as int, end as int))
                =~= view_tokens(out@) + lex_prefix(cs@, k as int, end as int));
        }
        p = k;
    }
}

/// The tokens of a source text up to the first character that starts no token.
pub fn tokenize_prefix(src: &str) -> (r: Vec<Token>)
    ensures
        view_tokens(r@) == lex_prefix(src@, 0, src@.len() as int),
{
    let cs = chars_of(src);
    lex_prefix_range(&cs, 0, cs.len())
}

/// The tokens of a source text, or the position of the first character that
/// starts no token.
pub fn tokenize(src: &str) -> (r: Result<Vec<Token>, usize>)
    ensures
        toks_res(r) == lex(src@),
{
    let cs = chars_of(src);
    lex_range(&cs, 0, cs.len())
}

} // verus!
