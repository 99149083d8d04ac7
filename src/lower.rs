use vstd::prelude::*;
use crate::parser::{SExp, SExpView, sexp_view};

verus! {

/// A node of the typed syntax tree.
#[derive(Debug, PartialEq, Eq)]
pub enum Exp {
    Int(usize),
    Id(String),
    List(Vec<Exp>),
    Plus(Box<Exp>, Box<Exp>),
    First(Box<Exp>),
}

/// The mathematical model of a syntax tree.
pub enum ExpView {
    Int(nat),
    Id(Seq<char>),
    List(Seq<ExpView>),
    Plus(Box<ExpView>, Box<ExpView>),
    First(Box<ExpView>),
}

pub open spec fn exp_view(e: Exp) -> ExpView
    decreases e,
{
    match e {
        Exp::Int(n) => ExpView::Int(n as nat),
        Exp::Id(s) => ExpView::Id(s@),
        Exp::List(v) => ExpView::List(exps_view(v@)),
        Exp::Plus(a, b) => ExpView::Plus(Box::new(exp_view(*a)), Box::new(exp_view(*b))),
        Exp::First(a) => ExpView::First(Box::new(exp_view(*a))),
    }
}

pub open spec fn exps_view(s: Seq<Exp>) -> Seq<ExpView>
    decreases s,
{
    if s.len() == 0 {
        seq![]
    } else {
        exps_view(s.drop_last()).push(exp_view(s.last()))
    }
}

impl View for Exp {
    type V = ExpView;

    open spec fn view(&self) -> ExpView {
        exp_view(*self)
    }
}

/// Why a generic tree is not an expression of the language.
#[derive(Clone, Copy, Debug, PartialEq, Eq, Structural)]
pub enum LowerError {
    /// An addition does not have exactly two operands.
    ArityMismatch,
    /// A list starts with an identifier that names no form.
    UnsupportedForm,
    /// A list of two or more elements starts with something other than an identifier.
    InvalidApplication,
    /// An empty list stands where an expression is required.
    UnexpectedNil,
}

/// The syntax tree of a generic tree. A one-element list is its element;
/// a longer list is a form named by its first element: `+` with exactly two
/// operands, `first` applied to the rest, or `list` of the elements that follow.
pub open spec fn lower_spec(s: SExpView) -> Result<ExpView, LowerError>
    decreases s,
{
    match s {
        SExpView::Nil => Err(LowerError::UnexpectedNil),
        SExpView::Int(n) => Ok(ExpView::Int(n)),
        SExpView::Id(x) => Ok(ExpView::Id(x)),
        SExpView::Cons(h, t) => if *t is Nil {
            lower_spec(*h)
        } else {
            match *h {
                SExpView::Id(name) => if name == "+"@ {
                    lower_plus(*t)
                } else if name == "first"@ {
                    match lower_spec(*t) {
                        Ok(a) => Ok(ExpView::First(Box::new(a))),
                        Err(e) => Err(e),
                    }
                } else if name == "list"@ {
                    match lower_items(*t) {
                        Ok(xs) => Ok(ExpView::List(xs)),
                        Err(e) => Err(e),
                    }
                } else {
                    Err(LowerError::UnsupportedForm)
                },
                _ => Err(LowerError::InvalidApplication),
            }
        },
    }
}

/// The addition of the two elements of `args`, left operand first.
pub open spec fn lower_plus(args: SExpView) -> Result<ExpView, LowerError>
    decreases args,
{
    match args {
        SExpView::Cons(a, rest) => match *rest {
            SExpView::Cons(b, end) => if *end is Nil {
                match lower_spec(*a) {
                    Ok(x) => match lower_spec(*b) {
                        Ok(y) => Ok(ExpView::Plus(Box::new(x), Box::new(y))),
                        Err(e) => Err(e),
                    },
                    Err(e) => Err(e),
                }
            } else {
                Err(LowerError::ArityMismatch)
            },
            _ => Err(LowerError::ArityMismatch),
        },
        _ => Err(LowerError::ArityMismatch),
    }
}

/// The syntax trees of the elements of a chain of pairs, in order.
pub open spec fn lower_items(s: SExpView) -> Result<Seq<ExpView>, LowerError>
    decreases s,
{
    match s {
        SExpView::Cons(h, t) => match lower_spec(*h) {
            Ok(x) => match lower_items(*t) {
                Ok(xs) => Ok(seq![x] + xs),
                Err(e) => Err(e),
            },
            Err(e) => Err(e),
        },
        _ => Ok(seq![]),
    }
}

pub open spec fn lowered(r: Result<Exp, LowerError>) -> Result<ExpView, LowerError> {
    match r {
        Ok(e) => Ok(e@),
        Err(e) => Err(e),
    }
}

/// Whether `s` holds exactly the characters of `w`.
fn equals_word(s: &String, w: &str) -> (r: bool)
    ensures
        r == (s@ == w@),
{
    let a = s.as_str();
    let n = a.unicode_len();
    if n != w.unicode_len() {
        return false;
    }
    let mut i: usize = 0;
    while i < n
        invariant
            i <= n,
            n == a@.len(),
            n == w@.len(),
            a@ == s@,
            forall|k: int| 0 <= k < i ==> a@[k] == w@[k],
        decreases n - i,
    {
        if a.get_char(i) != w.get_char(i) {
            return false;
        }
        i = i + 1;
    }
    assert(s@ =~= w@);
    true
}

/// Appends to `out` the syntax trees of the elements of a chain of pairs, in order.
fn lower_items_into(items: SExp, out: &mut Vec<Exp>) -> (r: Result<(), LowerError>)
    ensures
        match lower_items(items@) {
            Ok(xs) => r is Ok && exps_view(final(out)@) == exps_view(old(out)@) + xs,
            Err(e) => r == Err::<(), LowerError>(e),
        },
    decreases items, 0nat,
{
    match items {
        SExp::Cons(h, t) => {
            let ghost hv = sexp_view(*h);
            let ghost tv = sexp_view(*t);
            assert(items@ == SExpView::Cons(Box::new(hv), Box::new(tv)));
            match parse_ast(*h) {
                Ok(x) => {
                    let ghost prev = out@;
                    out.push(x);
                    assert(out@.drop_last() =~= prev);
                    assert(exps_view(out@) == exps_view(prev).push(x@));
                    let ghost mid = out@;
                    let rest = lower_items_into(*t, out);
                    proof {
                        if let Ok(xs) = lower_items(tv) {
                            assert(exps_view(prev) + (seq![x@] + xs) =~= exps_view(mid) + xs);
                        }
                    }
                    rest
                },
                Err(e) => Err(e),
            }
        },
        _ => {
            assert(exps_view(out@) + seq![] =~= exps_view(out@));
            Ok(())
        },
    }
}

/// Lowers a generic tree to a syntax tree: numbers and identifiers stand for
/// themselves, a one-element list for its element, and a longer list for
/// the form that its first element names.
pub fn parse_ast(sexp: SExp) -> (r: Result<Exp, LowerError>)
    ensures
        lowered(r) == lower_spec(sexp@),
    decreases sexp, 1nat,
{
    match sexp {
        SExp::Nil => Err(LowerError::UnexpectedNil),
        SExp::Int(n) => Ok(Exp::Int(n)),
        SExp::Id(id) => Ok(Exp::Id(id)),
        SExp::Cons(h, t) => {
            let h = *h;
            let t = *t;
            assert(sexp@ == SExpView::Cons(Box::new(h@), Box::new(t@)));
            if matches!(t, SExp::Nil) {
                return parse_ast(h);
            }
            match h {
                SExp::Id(name) => {
                    if equals_word(&name, "+") {
                        lower_addition(t)
                    } else if equals_word(&name, "first") {
                        match parse_ast(t) {
                            Ok(a) => Ok(Exp::First(Box::new(a))),
                            Err(e) => Err(e),
                        }
                    } else if equals_word(&name, "list") {
                        let mut out: Vec<Exp> = Vec::new();
                        match lower_items_into(t, &mut out) {
                            Ok(()) => {
                                assert(exps_view(out@) =~= exps_view(seq![]) + exps_view(out@));
                                Ok(Exp::List(out))
                            },
                            Err(e) => Err(e),
                        }
                    } else {
                        Err(LowerError::UnsupportedForm)
                    }
                },
                _ => Err(LowerError::InvalidApplication),
            }
        },
    }
}

/// The addition of the two elements of `args`.
fn lower_addition(args: SExp) -> (r: Result<Exp, LowerError>)
    ensures
        lowered(r) == lower_plus(args@),
    decreases args, 0nat,
{
    let (a, rest) = match args {
        SExp::Cons(a, rest) => (*a, *rest),
        _ => {
            return Err(LowerError::ArityMismatch);
        },
    };
    assert(args@ == SExpView::Cons(Box::new(a@), Box::new(rest@)));
    let (b, end) = match rest {
        SExp::Cons(b, end) => (*b, *end),
        _ => {
            return Err(LowerError::ArityMismatch);
        },
    };
    assert(rest@ == SExpView::Cons(Box::new(b@), Box::new(end@)));
    if !matches!(end, SExp::Nil) {
        return Err(LowerError::ArityMismatch);
    }
    let x = match parse_ast(a) {
        Ok(x) => x,
        Err(e) => {
            return Err(e);
        },
    };
    match parse_ast(b) {
        Ok(y) => Ok(Exp::Plus(Box::new(x), Box::new(y))),
        Err(e) => Err(e),
    }
}

} // verus!
