use vstd::prelude::*;
use crate::lexer::{Token, TokenView, tokens_view};

verus! {

/// A generic parenthesized tree: atoms, and lists as chains of pairs ending in `Nil`.
#[derive(Debug, PartialEq, Eq)]
pub enum SExp {
    Nil,
    Int(usize),
    Id(String),
    Cons(Box<SExp>, Box<SExp>),
}

/// The mathematical model of a generic tree.
pub enum SExpView {
    Nil,
    Int(nat),
    Id(Seq<char>),
    Cons(Box<SExpView>, Box<SExpView>),
}

pub open spec fn sexp_view(s: SExp) -> SExpView
    decreases s,
{
    match s {
        SExp::Nil => SExpView::Nil,
        SExp::Int(n) => SExpView::Int(n as nat),
        SExp::Id(id) => SExpView::Id(id@),
        SExp::Cons(h, t) => SExpView::Cons(Box::new(sexp_view(*h)), Box::new(sexp_view(*t))),
    }
}

impl View for SExp {
    type V = SExpView;

    open spec fn view(&self) -> SExpView {
        sexp_view(*self)
    }
}

/// Why a token sequence does not form an expression.
#[derive(Clone, Copy, Debug, PartialEq, Eq, Structural)]
pub enum ParseError {
    /// An open parenthesis is never closed, or a close parenthesis has no
    /// open one to match.
    UnbalancedParens,
    /// An expression was expected, but the tokens ended or a close
    /// parenthesis came.
    UnexpectedToken,
    /// There are no tokens at all.
    EmptyInput,
}

/// The expression that starts at `pos`, with the position just after it.
/// With no tokens at all there is no input to parse.
pub open spec fn parse_expr(toks: Seq<TokenView>, pos: int) -> Result<(SExpView, int), ParseError>
    decreases toks.len() - pos, 0int,
{
    if toks.len() == 0 {
        Err(ParseError::EmptyInput)
    } else if pos < 0 || pos >= toks.len() {
        Err(ParseError::UnexpectedToken)
    } else {
        match toks[pos] {
            TokenView::Int(n) => Ok((SExpView::Int(n), pos + 1)),
            TokenView::Id(s) => Ok((SExpView::Id(s), pos + 1)),
            TokenView::RParen => Err(ParseError::UnexpectedToken),
            TokenView::LParen => match parse_list(toks, pos + 1) {
                Ok((l, p)) => Ok((l, p + 1)),
                Err(e) => Err(e),
            },
        }
    }
}

/// The list of expressions that starts at `pos` and ends before a close
/// parenthesis, with the position of that parenthesis.
pub open spec fn parse_list(toks: Seq<TokenView>, pos: int) -> Result<(SExpView, int), ParseError>
    decreases toks.len() - pos, 1int,
{
    if pos < 0 || pos >= toks.len() {
        Err(ParseError::UnbalancedParens)
    } else if toks[pos] is RParen {
        Ok((SExpView::Nil, pos))
    } else {
        match parse_expr(toks, pos) {
            Ok((h, p)) => {
                // an expression takes at least one token, so this guard never fails
                if pos < p <= toks.len() {
                    match parse_list(toks, p) {
                        Ok((t, q)) => Ok((SExpView::Cons(Box::new(h), Box::new(t)), q)),
                        Err(e) => Err(e),
                    }
                } else {
                    Err(ParseError::UnexpectedToken)
                }
            },
            Err(e) => Err(e),
        }
    }
}

/// Whether the tokens from `pos` on hold a close parenthesis that no open
/// one among them matches, where `depth` open ones are pending before `pos`.
pub open spec fn unmatched_close(toks: Seq<TokenView>, pos: int, depth: nat) -> bool
    decreases toks.len() - pos,
{
    if pos < 0 || pos >= toks.len() {
        false
    } else {
        match toks[pos] {
            TokenView::LParen => unmatched_close(toks, pos + 1, depth + 1),
            TokenView::RParen => depth == 0 || unmatched_close(toks, pos + 1, (depth - 1) as nat),
            _ => unmatched_close(toks, pos + 1, depth),
        }
    }
}

/// The tree of a whole token sequence: one expression, after which no close
/// parenthesis may stand unmatched.
pub open spec fn parse_tokens(toks: Seq<TokenView>) -> Result<SExpView, ParseError> {
    match parse_expr(toks, 0) {
        Ok((e, p)) => if unmatched_close(toks, p, 0) {
            Err(ParseError::UnbalancedParens)
        } else {
            Ok(e)
        },
        Err(e) => Err(e),
    }
}

/// Every chain of pairs in the tree ends in `Nil`.
pub open spec fn nil_terminated(s: SExpView) -> bool
    decreases s,
{
    match s {
        SExpView::Cons(h, t) => nil_terminated(*h) && (*t is Nil || *t is Cons) && nil_terminated(*t),
        _ => true,
    }
}

/// An expression takes at least one token, and a list stops at a close
/// parenthesis; what either yields has only `Nil`-terminated chains, and a
/// list is `Nil` or a pair.
proof fn lemma_parse_shape(toks: Seq<TokenView>, pos: int)
    ensures
        parse_expr(toks, pos) matches Ok((e, p)) ==> pos < p <= toks.len() && nil_terminated(e),
        parse_list(toks, pos) matches Ok((l, p)) ==> pos <= p < toks.len() && toks[p] is RParen
            && (l is Nil || l is Cons) && nil_terminated(l),
    decreases toks.len() - pos,
{
    if 0 <= pos < toks.len() {
        lemma_parse_shape(toks, pos + 1);
        assert(parse_expr(toks, pos) matches Ok((e, p)) ==> pos < p <= toks.len() && nil_terminated(e));
        if !(toks[pos] is RParen) {
            if let Ok((h, p)) = parse_expr(toks, pos) {
                if pos < p <= toks.len() {
                    lemma_parse_shape(toks, p);
                    if let Ok((t, q)) = parse_list(toks, p) {
                        assert(nil_terminated(SExpView::Cons(Box::new(h), Box::new(t))));
                    }
                }
            }
        }
    }
}

/// Parses one expression starting at the cursor `pos`, and moves the cursor
/// past it. With no tokens at all it reports `EmptyInput`.
pub fn parse_sexp(tokens: &Vec<Token>, pos: &mut usize) -> (r: Result<SExp, ParseError>)
    requires
        *old(pos) <= tokens.len(),
    ensures
        match parse_expr(tokens_view(tokens@), *old(pos) as int) {
            Ok((e, p)) => r matches Ok(s) && s@ == e && *final(pos) == p,
            Err(e) => r == Err::<SExp, ParseError>(e),
        },
    decreases tokens.len() - *old(pos), 0nat,
{
    let ghost toks = tokens_view(tokens@);
    proof {
        lemma_parse_shape(toks, *pos as int);
    }
    if tokens.len() == 0 {
        return Err(ParseError::EmptyInput);
    }
    if *pos >= tokens.len() {
        return Err(ParseError::UnexpectedToken);
    }
    let i = *pos;
    assert(toks[i as int] == tokens@[i as int]@);
    match &tokens[i] {
        Token::Int(n) => {
            *pos = i + 1;
            Ok(SExp::Int(*n))
        },
        Token::Id(id) => {
            *pos = i + 1;
            Ok(SExp::Id(id.clone()))
        },
        Token::RParen => Err(ParseError::UnexpectedToken),
        Token::LParen => {
            *pos = i + 1;
            let l = parse_sexp_list(tokens, pos);
            match l {
                Ok(l) => {
                    *pos = *pos + 1;
                    Ok(l)
                },
                Err(e) => Err(e),
            }
        },
    }
}

/// Parses the expressions from the cursor `pos` up to a close parenthesis,
/// as a chain of pairs ending in `Nil`, and leaves the cursor on that
/// parenthesis.
pub fn parse_sexp_list(tokens: &Vec<Token>, pos: &mut usize) -> (r: Result<SExp, ParseError>)
    requires
        *old(pos) <= tokens.len(),
    ensures
        match parse_list(tokens_view(tokens@), *old(pos) as int) {
            Ok((e, p)) => r matches Ok(s) && s@ == e && *final(pos) == p,
            Err(e) => r == Err::<SExp, ParseError>(e),
        },
    decreases tokens.len() - *old(pos), 1nat,
{
    let ghost toks = tokens_view(tokens@);
    let ghost start = *pos as int;
    proof {
        lemma_parse_shape(toks, *pos as int);
    }
    if *pos >= tokens.len() {
        return Err(ParseError::UnbalancedParens);
    }
    assert(toks[start] == tokens@[start]@);
    if let Token::RParen = &tokens[*pos] {
        return Ok(SExp::Nil);
    }
    let head = parse_sexp(tokens, pos);
    match head {
        Ok(h) => {
            let tail = parse_sexp_list(tokens, pos);
            match tail {
                Ok(t) => Ok(SExp::Cons(Box::new(h), Box::new(t))),
                Err(e) => Err(e),
            }
        },
        Err(e) => Err(e),
    }
}

/// Whether the tokens from `start` on hold a close parenthesis that no open
/// one among them matches.
fn has_unmatched_close(tokens: &Vec<Token>, start: usize) -> (r: bool)
    requires
        start <= tokens.len(),
    ensures
        r == unmatched_close(tokens_view(tokens@), start as int, 0),
{
    let ghost toks = tokens_view(tokens@);
    let mut depth: usize = 0;
    let mut i: usize = start;
    while i < tokens.len()
        invariant
            start <= i <= tokens.len(),
            depth <= i - start,
            toks == tokens_view(tokens@),
            unmatched_close(toks, start as int, 0) == unmatched_close(toks, i as int, depth as nat),
        decreases tokens.len() - i,
    {
        assert(toks[i as int] == tokens@[i as int]@);
        match &tokens[i] {
            Token::LParen => {
                depth = depth + 1;
            },
            Token::RParen => {
                if depth == 0 {
                    return true;
                }
                depth = depth - 1;
            },
            _ => {},
        }
        i = i + 1;
    }
    false
}

/// Parses a whole token sequence as one expression. An empty sequence, and a
/// close parenthesis after the expression that nothing there opened, are
/// errors; other tokens after it are left unread.
pub fn parse(tokens: &Vec<Token>) -> (r: Result<SExp, ParseError>)
    ensures
        match parse_tokens(tokens_view(tokens@)) {
            Ok(e) => r matches Ok(s) && s@ == e,
            Err(e) => r == Err::<SExp, ParseError>(e),
        },
        r matches Ok(s) ==> nil_terminated(s@),
{
    let ghost toks = tokens_view(tokens@);
    proof {
        lemma_parsed_nil_terminated(toks);
    }
    let mut pos: usize = 0;
    let e = parse_sexp(tokens, &mut pos);
    match e {
        Ok(e) => {
            proof {
                lemma_parse_shape(toks, 0);
            }
            if has_unmatched_close(tokens, pos) {
                return Err(ParseError::UnbalancedParens);
            }
            Ok(e)
        },
        Err(e) => Err(e),
    }
}

/// Whatever tree a token sequence parses to has every chain of pairs ending in `Nil`.
pub proof fn lemma_parsed_nil_terminated(toks: Seq<TokenView>)
    ensures
        parse_tokens(toks) matches Ok(e) ==> nil_terminated(e),
{
    lemma_parse_shape(toks, 0);
}

} // verus!
