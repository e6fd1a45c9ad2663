//! A parser for lambda terms with type annotations, producing evidence.
//!
//! Terms are `x`, `f a`, `(e)` and `\x : T. e`; types are `A`, `(T)` and
//! `T -> U`. Parsing goes on past errors and records them all. Each error's
//! location is turned into an offset from the bytes left at the end; inputs
//! on which that offset would be negative, and inputs where a term must
//! start at a byte that cannot start one, are not accepted (`try_parse`
//! returns `None` for them, `parse` requires that they do not occur).
use vstd::prelude::*;

use crate::ast::{SEv, TypedEv};
use crate::lang::{SType, Type};

verus! {

/// Where a parse error was found, and what was wrong.
#[derive(Debug, Clone, PartialEq, Eq)]
pub struct Error {
    pub loc: usize,
    pub kind: ErrorKind,
}

/// The kinds of parse errors.
#[derive(Debug, Clone, Copy, PartialEq, Eq)]
pub enum ErrorKind {
    LambdaNameMissing,
    LambdaTypeColonMissing,
    UnclosedParen,
    BadType,
    BadExpr,
    LambdaDotMissing,
}

pub const SPACE: u8 = 32;
pub const NEWLINE: u8 = 10;
pub const OPEN: u8 = 40;
pub const CLOSE: u8 = 41;
pub const DASH: u8 = 45;
pub const GREATER: u8 = 62;
pub const COLON: u8 = 58;
pub const DOT: u8 = 46;
pub const BACKSLASH: u8 = 92;
pub const UNDERSCORE: u8 = 95;

/// Errors as the parser records them: a location and a kind.
pub type Errs = Seq<(int, ErrorKind)>;

pub open spec fn errors_model(v: Seq<Error>) -> Errs {
    v.map_values(|e: Error| (e.loc as int, e.kind))
}

pub open spec fn is_space(b: u8) -> bool {
    b == SPACE || b == NEWLINE
}

/// Bytes that may start a name: letters and the underscore.
pub open spec fn is_ident_start(b: u8) -> bool {
    (97 <= b <= 122) || (65 <= b <= 90) || b == UNDERSCORE
}

/// Bytes that may continue a name: letters, digits and the underscore.
pub open spec fn is_ident_byte(b: u8) -> bool {
    is_ident_start(b) || (48 <= b <= 57)
}

/// How many bytes are left from `pos` on.
pub open spec fn rem(s: Seq<u8>, pos: int) -> nat {
    if 0 <= pos <= s.len() {
        (s.len() - pos) as nat
    } else {
        0
    }
}

/// The position after the spaces and newlines that start at `pos`.
pub open spec fn skip_ws(s: Seq<u8>, pos: int) -> int
    decreases rem(s, pos),
{
    if 0 <= pos < s.len() && is_space(s[pos]) {
        skip_ws(s, pos + 1)
    } else {
        pos
    }
}

/// The position after the name bytes that start at `pos`.
pub open spec fn ident_end(s: Seq<u8>, pos: int) -> int
    decreases rem(s, pos),
{
    if 0 <= pos < s.len() && is_ident_byte(s[pos]) {
        ident_end(s, pos + 1)
    } else {
        pos
    }
}

/// The characters of the bytes from `a` to `b`.
pub open spec fn chars_of(s: Seq<u8>, a: int, b: int) -> Seq<char> {
    s.subrange(a, b).map_values(|c: u8| c as char)
}

/// A position that lies between `pos` and the end of the input. Positions
/// never move backwards; the tests below that use it only show that the
/// recursion ends.
pub open spec fn ahead(s: Seq<u8>, pos: int, q: int) -> bool {
    0 <= pos <= q <= s.len()
}

/// A type atom at `pos`: a name or a parenthesised type.
pub open spec fn ty_atom_spec(s: Seq<u8>, pos: int, errs: Errs) -> (SType, int, Errs)
    decreases rem(s, pos), 0nat,
{
    let n = s.len();
    if 0 <= pos < n && is_ident_start(s[pos]) {
        let e = ident_end(s, pos + 1);
        (SType::Var(chars_of(s, pos, e)), skip_ws(s, e), errs)
    } else if 0 <= pos < n && s[pos] == OPEN {
        let (t, p1, e1) = ty_spec(s, pos + 1, errs);
        if 0 <= p1 < n && s[p1] == CLOSE {
            (t, skip_ws(s, p1 + 1), e1)
        } else {
            (t, p1, e1.push((n - p1, ErrorKind::UnclosedParen)))
        }
    } else {
        (SType::Var(Seq::empty()), pos, errs.push((n - pos, ErrorKind::BadType)))
    }
}

/// A type at `pos`: an atom, possibly followed by `->` and a type.
pub open spec fn ty_spec(s: Seq<u8>, pos: int, errs: Errs) -> (SType, int, Errs)
    decreases rem(s, pos), 1nat,
{
    let (t, p1, e1) = ty_atom_spec(s, pos, errs);
    if 0 <= p1 && p1 + 1 < s.len() && s[p1] == DASH && s[p1 + 1] == GREATER {
        let p2 = skip_ws(s, p1 + 2);
        if ahead(s, pos, p2) && pos < p2 {
            let (t2, p3, e2) = ty_spec(s, p2, e1);
            (SType::Arrow(Box::new(t), Box::new(t2)), p3, e2)
        } else {
            (t, p1, e1)
        }
    } else {
        (t, p1, e1)
    }
}

/// A lambda after its backslash: `x : T. e`; `None` where parsing the body
/// reaches a byte that cannot start a term.
pub open spec fn lam_spec(s: Seq<u8>, pos: int, errs: Errs) -> Option<(SEv, int, Errs)>
    decreases rem(s, pos), 5nat,
{
    let n = s.len();
    let loc = n - pos;
    let p1 = ident_end(s, pos);
    let name = chars_of(s, pos, p1);
    let e1 = if p1 == pos {
        errs.push((loc, ErrorKind::LambdaNameMissing))
    } else {
        errs
    };
    let p2 = skip_ws(s, p1);
    let p3 = if 0 <= p2 < n && s[p2] == COLON {
        p2 + 1
    } else {
        p2
    };
    let e2 = if 0 <= p2 < n && s[p2] == COLON {
        e1
    } else {
        e1.push((loc, ErrorKind::LambdaTypeColonMissing))
    };
    let p4 = skip_ws(s, p3);
    if ahead(s, pos, p4) {
        let (t, p5, e3) = ty_spec(s, p4, e2);
        let p6 = if 0 <= p5 < n && s[p5] == DOT {
            p5 + 1
        } else {
            p5
        };
        let e4 = if 0 <= p5 < n && s[p5] == DOT {
            e3
        } else {
            e3.push((loc, ErrorKind::LambdaDotMissing))
        };
        let p7 = skip_ws(s, p6);
        if ahead(s, pos, p7) {
            match expr_spec(s, p7, e4) {
                Some((body, p8, e5)) => Some((SEv::Abs(name, t, Box::new(body)), p8, e5)),
                None => None,
            }
        } else {
            None
        }
    } else {
        None
    }
}

/// A term atom at `pos`: a name or a parenthesised term.
pub open spec fn expr_atom_spec(s: Seq<u8>, pos: int, errs: Errs) -> Option<(SEv, int, Errs)>
    decreases rem(s, pos), 2nat,
{
    let n = s.len();
    if 0 <= pos < n && is_ident_start(s[pos]) {
        let e = ident_end(s, pos + 1);
        Some((SEv::Var(chars_of(s, pos, e)), skip_ws(s, e), errs))
    } else if 0 <= pos < n && s[pos] == OPEN {
        match expr_spec(s, pos + 1, errs) {
            Some((ex, p1, e1)) => if 0 <= p1 < n && s[p1] == CLOSE {
                Some((ex, skip_ws(s, p1 + 1), e1))
            } else {
                Some((ex, p1, e1.push((n - p1, ErrorKind::UnclosedParen))))
            },
            None => None,
        }
    } else {
        Some((SEv::Var(Seq::empty()), pos, errs.push((n - pos, ErrorKind::BadExpr))))
    }
}

/// Arguments applied to `ex` from `pos` on: atoms, and a final lambda.
pub open spec fn tail_spec(s: Seq<u8>, pos: int, ex: SEv, errs: Errs) -> Option<
    (SEv, int, Errs),
>
    decreases rem(s, pos), 3nat,
{
    let n = s.len();
    if 0 <= pos < n && s[pos] == BACKSLASH {
        match lam_spec(s, pos + 1, errs) {
            Some((l, p1, e1)) => Some((SEv::App(Box::new(ex), Box::new(l)), p1, e1)),
            None => None,
        }
    } else if 0 <= pos < n && (is_ident_start(s[pos]) || s[pos] == OPEN) {
        match expr_atom_spec(s, pos, errs) {
            Some((arg, p1, e1)) => if ahead(s, pos, p1) && pos < p1 {
                tail_spec(s, p1, SEv::App(Box::new(ex), Box::new(arg)), e1)
            } else {
                None
            },
            None => None,
        }
    } else {
        Some((ex, pos, errs))
    }
}

/// A term at `pos`; `None` where a term must start and the byte there
/// cannot start one.
pub open spec fn expr_spec(s: Seq<u8>, pos: int, errs: Errs) -> Option<(SEv, int, Errs)>
    decreases rem(s, pos), 4nat,
{
    let n = s.len();
    if 0 <= pos < n && (is_ident_start(s[pos]) || s[pos] == OPEN) {
        match expr_atom_spec(s, pos, errs) {
            Some((ex, p1, e1)) => if ahead(s, pos, p1) {
                tail_spec(s, p1, ex, e1)
            } else {
                None
            },
            None => None,
        }
    } else if 0 <= pos < n && s[pos] == BACKSLASH {
        lam_spec(s, pos + 1, errs)
    } else {
        None
    }
}

/// Every recorded location is at most `fin`.
pub open spec fn locations_at_most(es: Errs, fin: int) -> bool {
    forall|i: int| 0 <= i < es.len() ==> (#[trigger] es[i]).0 <= fin
}

/// Parsing a whole input: the evidence, the errors with their locations
/// rewritten, and the position where parsing stopped. `None` where the
/// input reaches a byte that cannot start a term, or where an error's
/// recorded location exceeds the bytes left at the end.
pub open spec fn parse_spec(s: Seq<u8>) -> Option<(SEv, Errs, int)> {
    let n = s.len();
    let p0 = skip_ws(s, 0);
    match expr_spec(s, p0, Seq::empty()) {
        Some((ex, p1, e1)) => {
            let e2 = if p1 != n {
                e1.push((n - p1, ErrorKind::BadExpr))
            } else {
                e1
            };
            let fin = n - p1;
            if locations_at_most(e2, fin) {
                Some((ex, e2.map_values(|e: (int, ErrorKind)| (fin - e.0, e.1)), p1))
            } else {
                None
            }
        },
        None => None,
    }
}

/// `String::push`: appends the character to the end of the string.
#[verifier::external_body]
fn push_char(s: &mut String, c: char)
    ensures
        final(s)@ == old(s)@.push(c),
{
    s.push(c);
}

fn is_space_byte(b: u8) -> (r: bool)
    ensures
        r == is_space(b),
{
    b == SPACE || b == NEWLINE
}

fn is_start_byte(b: u8) -> (r: bool)
    ensures
        r == is_ident_start(b),
{
    (97 <= b && b <= 122) || (65 <= b && b <= 90) || b == UNDERSCORE
}

fn is_name_byte(b: u8) -> (r: bool)
    ensures
        r == is_ident_byte(b),
{
    is_start_byte(b) || (48 <= b && b <= 57)
}

fn ws(s: &[u8], pos: usize) -> (r: usize)
    requires
        pos <= s@.len(),
    ensures
        r == skip_ws(s@, pos as int),
        pos <= r <= s@.len(),
    decreases s@.len() - pos,
{
    if pos < s.len() && is_space_byte(s[pos]) {
        ws(s, pos + 1)
    } else {
        pos
    }
}

/// The end of the name bytes from `pos` on.
fn ident_stop(s: &[u8], pos: usize) -> (r: usize)
    requires
        pos <= s@.len(),
    ensures
        r == ident_end(s@, pos as int),
        pos <= r <= s@.len(),
    decreases s@.len() - pos,
{
    if pos < s.len() && is_name_byte(s[pos]) {
        ident_stop(s, pos + 1)
    } else {
        pos
    }
}

/// The name made of the bytes from `start` to the end of the name bytes
/// from `pos` on.
fn ident(s: &[u8], start: usize, pos: usize) -> (r: (String, usize))
    requires
        start <= pos <= s@.len(),
    ensures
        r.1 == ident_end(s@, pos as int),
        pos <= r.1 <= s@.len(),
        r.0@ == chars_of(s@, start as int, r.1 as int),
{
    let end = ident_stop(s, pos);
    let mut name = String::new();
    let mut i = start;
    while i < end
        invariant
            start <= i <= end <= s@.len(),
            name@ == chars_of(s@, start as int, i as int),
        decreases end - i,
    {
        let c = s[i] as char;
        proof {
            assert(chars_of(s@, start as int, i + 1) =~= chars_of(s@, start as int, i as int).push(
                c,
            ));
        }
        push_char(&mut name, c);
        i += 1;
    }
    (name, end)
}

fn push_error(errors: &mut Vec<Error>, loc: usize, kind: ErrorKind)
    ensures
        errors_model(final(errors)@) == errors_model(old(errors)@).push((loc as int, kind)),
{
    errors.push(Error { loc, kind });
    assert(errors_model(errors@) =~= errors_model(old(errors)@).push((loc as int, kind)));
}

/// The exec result of parsing a term agrees with what the spec says,
/// `errs` being the errors recorded after it.
pub open spec fn agrees(r: Option<(TypedEv, usize)>, sp: Option<(SEv, int, Errs)>, errs: Errs) -> bool {
    match sp {
        Some((ev, p, e)) => match r {
            Some((rev, rp)) => rev@ == ev && rp as int == p && errs == e,
            None => false,
        },
        None => r is None,
    }
}

fn parse_ty_atom(s: &[u8], pos: usize, errors: &mut Vec<Error>) -> (r: (Type, usize))
    requires
        pos <= s@.len(),
    ensures
        ty_atom_spec(s@, pos as int, errors_model(old(errors)@)) == (
            r.0@,
            r.1 as int,
            errors_model(final(errors)@),
        ),
        pos <= r.1 <= s@.len(),
    decreases s@.len() - pos, 0nat,
{
    let n = s.len();
    if pos < n && is_start_byte(s[pos]) {
        let (name, e) = ident(s, pos, pos + 1);
        let p = ws(s, e);
        (Type::Var(name), p)
    } else if pos < n && s[pos] == OPEN {
        let (t, p1) = parse_ty(s, pos + 1, errors);
        if p1 < n && s[p1] == CLOSE {
            let p = ws(s, p1 + 1);
            (t, p)
        } else {
            push_error(errors, n - p1, ErrorKind::UnclosedParen);
            (t, p1)
        }
    } else {
        push_error(errors, n - pos, ErrorKind::BadType);
        let empty = String::new();
        (Type::Var(empty), pos)
    }
}

fn parse_ty(s: &[u8], pos: usize, errors: &mut Vec<Error>) -> (r: (Type, usize))
    requires
        pos <= s@.len(),
    ensures
        ty_spec(s@, pos as int, errors_model(old(errors)@)) == (
            r.0@,
            r.1 as int,
            errors_model(final(errors)@),
        ),
        pos <= r.1 <= s@.len(),
    decreases s@.len() - pos, 1nat,
{
    let n = s.len();
    let (t, p1) = parse_ty_atom(s, pos, errors);
    if p1 < n && p1 + 1 < n && s[p1] == DASH && s[p1 + 1] == GREATER {
        let p2 = ws(s, p1 + 2);
        let (t2, p3) = parse_ty(s, p2, errors);
        (Type::Arrow(Box::new(t), Box::new(t2)), p3)
    } else {
        (t, p1)
    }
}

fn parse_lam(s: &[u8], pos: usize, errors: &mut Vec<Error>) -> (r: Option<(TypedEv, usize)>)
    requires
        pos <= s@.len(),
    ensures
        agrees(r, lam_spec(s@, pos as int, errors_model(old(errors)@)), errors_model(final(errors)@)),
        r matches Some((_, p)) ==> pos <= p <= s@.len(),
    decreases s@.len() - pos, 5nat,
{
    let n = s.len();
    let loc = n - pos;
    let (name, p1) = ident(s, pos, pos);
    if p1 == pos {
        push_error(errors, loc, ErrorKind::LambdaNameMissing);
    }
    let p2 = ws(s, p1);
    let p3 = if p2 < n && s[p2] == COLON {
        p2 + 1
    } else {
        push_error(errors, loc, ErrorKind::LambdaTypeColonMissing);
        p2
    };
    let p4 = ws(s, p3);
    let (t, p5) = parse_ty(s, p4, errors);
    let p6 = if p5 < n && s[p5] == DOT {
        p5 + 1
    } else {
        push_error(errors, loc, ErrorKind::LambdaDotMissing);
        p5
    };
    let p7 = ws(s, p6);
    match parse_expr(s, p7, errors) {
        Some((body, p8)) => Some((TypedEv::Abs(name, t, Box::new(body)), p8)),
        None => None,
    }
}

fn parse_expr_atom(s: &[u8], pos: usize, errors: &mut Vec<Error>) -> (r: Option<(TypedEv, usize)>)
    requires
        pos <= s@.len(),
    ensures
        agrees(
            r,
            expr_atom_spec(s@, pos as int, errors_model(old(errors)@)),
            errors_model(final(errors)@),
        ),
        r matches Some((_, p)) ==> pos <= p <= s@.len(),
        r matches Some((_, p)) ==> (pos < s@.len() && (is_ident_start(s@[pos as int])
            || s@[pos as int] == OPEN) ==> pos < p),
    decreases s@.len() - pos, 2nat,
{
    let n = s.len();
    if pos < n && is_start_byte(s[pos]) {
        let (name, e) = ident(s, pos, pos + 1);
        let p = ws(s, e);
        Some((TypedEv::Var(name), p))
    } else if pos < n && s[pos] == OPEN {
        match parse_expr(s, pos + 1, errors) {
            Some((ex, p1)) => {
                if p1 < n && s[p1] == CLOSE {
                    let p = ws(s, p1 + 1);
                    Some((ex, p))
                } else {
                    push_error(errors, n - p1, ErrorKind::UnclosedParen);
                    Some((ex, p1))
                }
            },
            None => None,
        }
    } else {
        push_error(errors, n - pos, ErrorKind::BadExpr);
        let empty = String::new();
        Some((TypedEv::Var(empty), pos))
    }
}

fn parse_expr(s: &[u8], pos: usize, errors: &mut Vec<Error>) -> (r: Option<(TypedEv, usize)>)
    requires
        pos <= s@.len(),
    ensures
        agrees(r, expr_spec(s@, pos as int, errors_model(old(errors)@)), errors_model(final(errors)@)),
        r matches Some((_, p)) ==> pos <= p <= s@.len(),
    decreases s@.len() - pos, 4nat,
{
    let n = s.len();
    if pos < n && (is_start_byte(s[pos]) || s[pos] == OPEN) {
        let (mut ex, mut p) = match parse_expr_atom(s, pos, errors) {
            Some(x) => x,
            None => return None,
        };
        let ghost goal = expr_spec(s@, pos as int, errors_model(old(errors)@));
        loop
            invariant
                n == s@.len(),
                pos <= p <= n,
                goal == expr_spec(s@, pos as int, errors_model(old(errors)@)),
                goal == tail_spec(s@, p as int, ex@, errors_model(errors@)),
            decreases n - p,
        {
            if p < n && s[p] == BACKSLASH {
                match parse_lam(s, p + 1, errors) {
                    Some((l, q)) => {
                        return Some((TypedEv::App(Box::new(ex), Box::new(l)), q));
                    },
                    None => {
                        return None;
                    },
                }
            } else if p < n && (is_start_byte(s[p]) || s[p] == OPEN) {
                match parse_expr_atom(s, p, errors) {
                    Some((arg, q)) => {
                        ex = TypedEv::App(Box::new(ex), Box::new(arg));
                        p = q;
                    },
                    None => {
                        return None;
                    },
                }
            } else {
                return Some((ex, p));
            }
        }
    } else if pos < n && s[pos] == BACKSLASH {
        parse_lam(s, pos + 1, errors)
    } else {
        None
    }
}

/// Whether every recorded location is at most `fin`.
fn locations_within(errors: &Vec<Error>, fin: usize) -> (r: bool)
    ensures
        r == forall|k: int|
            0 <= k < errors@.len() ==> (#[trigger] errors_model(errors@)[k]).0 <= fin,
{
    let ghost e2 = errors_model(errors@);
    let mut i: usize = 0;
    while i < errors.len()
        invariant
            i <= errors.len(),
            e2 == errors_model(errors@),
            forall|k: int| 0 <= k < i ==> (#[trigger] e2[k]).0 <= fin,
        decreases errors.len() - i,
    {
        if errors[i].loc > fin {
            assert(e2[i as int].0 > fin);
            return false;
        }
        i += 1;
    }
    true
}

/// Parses a whole input from its start: the evidence, the errors with
/// their locations rewritten, and where parsing stopped.
fn parse_all(s: &[u8]) -> (r: Option<(TypedEv, Vec<Error>, usize)>)
    ensures
        match parse_spec(s@) {
            Some((ev, es, p)) => match r {
                Some((rev, res, rp)) => rev@ == ev && errors_model(res@) == es && rp as int == p,
                None => false,
            },
            None => r is None,
        },
        r matches Some((_, _, p)) ==> p <= s@.len(),
{
    let mut errors: Vec<Error> = Vec::new();
    assert(errors_model(errors@) =~= Seq::<(int, ErrorKind)>::empty());
    let p0 = ws(s, 0);
    let (ex, p1) = match parse_expr(s, p0, &mut errors) {
        Some(x) => x,
        None => return None,
    };
    let n = s.len();
    let ghost e1 = errors_model(errors@);
    if p1 != n {
        push_error(&mut errors, n - p1, ErrorKind::BadExpr);
    }
    let fin = n - p1;
    let ghost e2 = errors_model(errors@);
    proof {
        let sp = expr_spec(s@, p0 as int, Seq::empty());
        assert(sp == Some((ex@, p1 as int, e1)));
        let se2 = if p1 != n {
            e1.push((n - p1, ErrorKind::BadExpr))
        } else {
            e1
        };
        assert(se2 == e2);
    }
    if !locations_within(&errors, fin) {
        proof {
            let k = choose|k: int|
                0 <= k < errors@.len() && !((#[trigger] errors_model(errors@)[k]).0 <= fin);
            assert(e2[k].0 > fin);
            assert(parse_spec(s@) is None);
        }
        return None;
    }
    let mut out: Vec<Error> = Vec::new();
    assert(errors_model(out@) =~= e2.take(0).map_values(|e: (int, ErrorKind)| (fin - e.0, e.1)));
    let mut k: usize = 0;
    while k < errors.len()
        invariant
            k <= errors.len(),
            e2 == errors_model(errors@),
            forall|m: int| 0 <= m < e2.len() ==> (#[trigger] e2[m]).0 <= fin,
            errors_model(out@) == e2.take(k as int).map_values(
                |e: (int, ErrorKind)| (fin - e.0, e.1),
            ),
        decreases errors.len() - k,
    {
        assert(e2[k as int] == (errors@[k as int].loc as int, errors@[k as int].kind));
        let loc = fin - errors[k].loc;
        let kind = errors[k].kind;
        proof {
            assert(e2[k as int] == (errors@[k as int].loc as int, errors@[k as int].kind));
            assert(e2.take(k + 1).map_values(|e: (int, ErrorKind)| (fin - e.0, e.1)) =~= e2.take(
                k as int,
            ).map_values(|e: (int, ErrorKind)| (fin - e.0, e.1)).push((loc as int, kind)));
        }
        push_error(&mut out, loc, kind);
        k += 1;
    }
    proof {
        assert(e2.take(errors.len() as int) =~= e2);
    }
    Some((ex, out, p1))
}

/// Parses a term from the start of `src`, leaving in `src` what was not
/// parsed. `None`, with `src` unchanged, on the inputs that `parse` does
/// not accept.
pub fn try_parse(src: &mut &[u8]) -> (r: Option<(TypedEv, Vec<Error>)>)
    ensures
        r is Some <==> parse_spec(old(src)@) is Some,
        r matches Some((ev, errs)) ==> {
            let (sev, serrs, p) = parse_spec(old(src)@).unwrap();
            &&& ev@ == sev
            &&& errors_model(errs@) == serrs
            &&& final(src)@ == old(src)@.skip(p)
        },
        r matches Some((_, errs)) ==> (errs@.len() == 0 ==> final(src)@.len() == 0),
        r matches Some((_, errs)) ==> forall|i: int|
            0 <= i < errs@.len() ==> (#[trigger] errs@[i]).loc == 0,
        r is None ==> final(src)@ == old(src)@,
{
    proof {
        lemma_no_errors_consumes_all(old(src)@);
        lemma_reported_locations_are_zero(old(src)@);
    }
    let s: &[u8] = *src;
    match parse_all(s) {
        Some((ev, errs, p)) => {
            proof {
                assert forall|i: int| 0 <= i < errs@.len() implies (#[trigger] errs@[i]).loc == 0 by {
                    assert(errors_model(errs@)[i].0 == errs@[i].loc);
                }
            }
            let rest = vstd::slice::slice_subrange(s, p, s.len());
            proof {
                assert(rest@ =~= s@.skip(p as int));
            }
            *src = rest;
            Some((ev, errs))
        },
        None => None,
    }
}

/// Parses a term from the start of `src`, leaving in `src` what was not
/// parsed, and reports every error found on the way.
pub fn parse(src: &mut &[u8]) -> (r: (TypedEv, Vec<Error>))
    requires
        parse_spec(old(src)@) is Some,
    ensures
        ({
            let (sev, serrs, p) = parse_spec(old(src)@).unwrap();
            &&& r.0@ == sev
            &&& errors_model(r.1@) == serrs
            &&& final(src)@ == old(src)@.skip(p)
        }),
        r.1@.len() == 0 ==> final(src)@.len() == 0,
        forall|i: int| 0 <= i < r.1@.len() ==> (#[trigger] r.1@[i]).loc == 0,
{
    try_parse(src).unwrap()
}

/// A parse that reports no error has read the whole input.
pub proof fn lemma_no_errors_consumes_all(s: Seq<u8>)
    ensures
        parse_spec(s) matches Some((_, es, p)) ==> (es.len() == 0 ==> p == s.len()),
{
}

/// Every recorded location is at least `r`.
pub open spec fn locations_at_least(es: Errs, r: int) -> bool {
    forall|i: int| 0 <= i < es.len() ==> (#[trigger] es[i]).0 >= r
}

proof fn lemma_skip_ws_ahead(s: Seq<u8>, pos: int)
    requires
        0 <= pos <= s.len(),
    ensures
        pos <= skip_ws(s, pos) <= s.len(),
    decreases rem(s, pos),
{
    if pos < s.len() && is_space(s[pos]) {
        lemma_skip_ws_ahead(s, pos + 1);
    }
}

proof fn lemma_ident_end_ahead(s: Seq<u8>, pos: int)
    requires
        0 <= pos <= s.len(),
    ensures
        pos <= ident_end(s, pos) <= s.len(),
    decreases rem(s, pos),
{
    if pos < s.len() && is_ident_byte(s[pos]) {
        lemma_ident_end_ahead(s, pos + 1);
    }
}

proof fn lemma_locations_push(es: Errs, r: int, r2: int, e: (int, ErrorKind))
    requires
        locations_at_least(es, r),
        r2 <= r,
        e.0 >= r2,
    ensures
        locations_at_least(es.push(e), r2),
{
    assert forall|i: int| 0 <= i < es.push(e).len() implies (#[trigger] es.push(e)[i]).0 >= r2 by {
        if i < es.len() {
            assert(es.push(e)[i] == es[i]);
        }
    }
}

proof fn lemma_ty_atom_locations(s: Seq<u8>, pos: int, errs: Errs)
    requires
        0 <= pos <= s.len(),
        locations_at_least(errs, s.len() - pos),
    ensures
        ({
            let (_, p, es) = ty_atom_spec(s, pos, errs);
            pos <= p <= s.len() && locations_at_least(es, s.len() - p)
        }),
    decreases rem(s, pos), 0nat,
{
    let n = s.len();
    if 0 <= pos < n && is_ident_start(s[pos]) {
        lemma_ident_end_ahead(s, pos + 1);
        lemma_skip_ws_ahead(s, ident_end(s, pos + 1));
    } else if 0 <= pos < n && s[pos] == OPEN {
        lemma_ty_locations(s, pos + 1, errs);
        let (t, p1, e1) = ty_spec(s, pos + 1, errs);
        if 0 <= p1 < n && s[p1] == CLOSE {
            lemma_skip_ws_ahead(s, p1 + 1);
        } else {
            lemma_locations_push(e1, n - p1, n - p1, (n - p1, ErrorKind::UnclosedParen));
        }
    } else {
        lemma_locations_push(errs, n - pos, n - pos, (n - pos, ErrorKind::BadType));
    }
}

proof fn lemma_ty_locations(s: Seq<u8>, pos: int, errs: Errs)
    requires
        0 <= pos <= s.len(),
        locations_at_least(errs, s.len() - pos),
    ensures
        ({
            let (_, p, es) = ty_spec(s, pos, errs);
            pos <= p <= s.len() && locations_at_least(es, s.len() - p)
        }),
    decreases rem(s, pos), 1nat,
{
    lemma_ty_atom_locations(s, pos, errs);
    let (t, p1, e1) = ty_atom_spec(s, pos, errs);
    if 0 <= p1 && p1 + 1 < s.len() && s[p1] == DASH && s[p1 + 1] == GREATER {
        lemma_skip_ws_ahead(s, p1 + 2);
        let p2 = skip_ws(s, p1 + 2);
        lemma_ty_locations(s, p2, e1);
    }
}

proof fn lemma_lam_locations(s: Seq<u8>, pos: int, errs: Errs)
    requires
        0 <= pos <= s.len(),
        locations_at_least(errs, s.len() - pos),
    ensures
        lam_spec(s, pos, errs) matches Some((_, p, es)) ==> pos <= p <= s.len()
            && locations_at_least(es, s.len() - p),
    decreases rem(s, pos), 5nat,
{
    let n = s.len();
    let loc = n - pos;
    lemma_ident_end_ahead(s, pos);
    let p1 = ident_end(s, pos);
    let e1 = if p1 == pos {
        errs.push((loc, ErrorKind::LambdaNameMissing))
    } else {
        errs
    };
    if p1 == pos {
        lemma_locations_push(errs, loc, loc, (loc, ErrorKind::LambdaNameMissing));
    }
    lemma_skip_ws_ahead(s, p1);
    let p2 = skip_ws(s, p1);
    let p3 = if 0 <= p2 < n && s[p2] == COLON {
        p2 + 1
    } else {
        p2
    };
    let e2 = if 0 <= p2 < n && s[p2] == COLON {
        e1
    } else {
        e1.push((loc, ErrorKind::LambdaTypeColonMissing))
    };
    if !(0 <= p2 < n && s[p2] == COLON) {
        lemma_locations_push(e1, loc, loc, (loc, ErrorKind::LambdaTypeColonMissing));
    }
    lemma_skip_ws_ahead(s, p3);
    let p4 = skip_ws(s, p3);
    assert(locations_at_least(e2, n - p4));
    lemma_ty_locations(s, p4, e2);
    let (t, p5, e3) = ty_spec(s, p4, e2);
    let p6 = if 0 <= p5 < n && s[p5] == DOT {
        p5 + 1
    } else {
        p5
    };
    let e4 = if 0 <= p5 < n && s[p5] == DOT {
        e3
    } else {
        e3.push((loc, ErrorKind::LambdaDotMissing))
    };
    if !(0 <= p5 < n && s[p5] == DOT) {
        lemma_locations_push(e3, n - p5, n - p5, (loc, ErrorKind::LambdaDotMissing));
    }
    lemma_skip_ws_ahead(s, p6);
    let p7 = skip_ws(s, p6);
    assert(locations_at_least(e4, n - p7));
    lemma_expr_locations(s, p7, e4);
}

proof fn lemma_expr_atom_locations(s: Seq<u8>, pos: int, errs: Errs)
    requires
        0 <= pos <= s.len(),
        locations_at_least(errs, s.len() - pos),
    ensures
        expr_atom_spec(s, pos, errs) matches Some((_, p, es)) ==> pos <= p <= s.len()
            && locations_at_least(es, s.len() - p),
    decreases rem(s, pos), 2nat,
{
    let n = s.len();
    if 0 <= pos < n && is_ident_start(s[pos]) {
        lemma_ident_end_ahead(s, pos + 1);
        lemma_skip_ws_ahead(s, ident_end(s, pos + 1));
    } else if 0 <= pos < n && s[pos] == OPEN {
        lemma_expr_locations(s, pos + 1, errs);
        if let Some((ex, p1, e1)) = expr_spec(s, pos + 1, errs) {
            if 0 <= p1 < n && s[p1] == CLOSE {
                lemma_skip_ws_ahead(s, p1 + 1);
            } else {
                lemma_locations_push(e1, n - p1, n - p1, (n - p1, ErrorKind::UnclosedParen));
            }
        }
    } else {
        lemma_locations_push(errs, n - pos, n - pos, (n - pos, ErrorKind::BadExpr));
    }
}

proof fn lemma_tail_locations(s: Seq<u8>, pos: int, ex: SEv, errs: Errs)
    requires
        0 <= pos <= s.len(),
        locations_at_least(errs, s.len() - pos),
    ensures
        tail_spec(s, pos, ex, errs) matches Some((_, p, es)) ==> pos <= p <= s.len()
            && locations_at_least(es, s.len() - p),
    decreases rem(s, pos), 3nat,
{
    let n = s.len();
    if 0 <= pos < n && s[pos] == BACKSLASH {
        lemma_lam_locations(s, pos + 1, errs);
    } else if 0 <= pos < n && (is_ident_start(s[pos]) || s[pos] == OPEN) {
        lemma_expr_atom_locations(s, pos, errs);
        if let Some((arg, p1, e1)) = expr_atom_spec(s, pos, errs) {
            if ahead(s, pos, p1) && pos < p1 {
                lemma_tail_locations(s, p1, SEv::App(Box::new(ex), Box::new(arg)), e1);
            }
        }
    }
}

proof fn lemma_expr_locations(s: Seq<u8>, pos: int, errs: Errs)
    requires
        0 <= pos <= s.len(),
        locations_at_least(errs, s.len() - pos),
    ensures
        expr_spec(s, pos, errs) matches Some((_, p, es)) ==> pos <= p <= s.len()
            && locations_at_least(es, s.len() - p),
    decreases rem(s, pos), 4nat,
{
    let n = s.len();
    if 0 <= pos < n && (is_ident_start(s[pos]) || s[pos] == OPEN) {
        lemma_expr_atom_locations(s, pos, errs);
        if let Some((ex, p1, e1)) = expr_atom_spec(s, pos, errs) {
            if ahead(s, pos, p1) {
                lemma_tail_locations(s, p1, ex, e1);
            }
        }
    } else if 0 <= pos < n && s[pos] == BACKSLASH {
        lemma_lam_locations(s, pos + 1, errs);
    }
}

/// Errors are recorded before parsing moves on, so an error recorded
/// anywhere but at the point where parsing stops has a location beyond the
/// bytes left at the end, and such inputs are not accepted: every error that
/// an accepted parse reports has location 0.
pub proof fn lemma_reported_locations_are_zero(s: Seq<u8>)
    ensures
        parse_spec(s) matches Some((_, es, _)) ==> forall|i: int|
            0 <= i < es.len() ==> (#[trigger] es[i]).0 == 0,
{
    let n = s.len();
    lemma_skip_ws_ahead(s, 0);
    let p0 = skip_ws(s, 0);
    lemma_expr_locations(s, p0, Seq::empty());
    if let Some((ex, p1, e1)) = expr_spec(s, p0, Seq::empty()) {
        let e2 = if p1 != n {
            e1.push((n - p1, ErrorKind::BadExpr))
        } else {
            e1
        };
        if p1 != n {
            lemma_locations_push(e1, n - p1, n - p1, (n - p1, ErrorKind::BadExpr));
        }
        let fin = n - p1;
        if locations_at_most(e2, fin) {
            let es = e2.map_values(|e: (int, ErrorKind)| (fin - e.0, e.1));
            assert forall|i: int| 0 <= i < es.len() implies (#[trigger] es[i]).0 == 0 by {
                assert(e2[i].0 <= fin);
                assert(e2[i].0 >= fin);
            }
        }
    }
}

} // verus!
