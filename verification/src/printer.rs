//! The text of terms and types that the parser reads, and the law that
//! parsing the text of a term gives the term back with no errors, whatever
//! run of spaces and newlines separates its tokens.
use vstd::prelude::*;

use crate::ast::SEv;
use crate::lang::SType;
use crate::parser::{
    chars_of, expr_atom_spec, expr_spec, ident_end, is_ident_byte, is_ident_start, is_space,
    lam_spec, parse_spec, skip_ws, tail_spec, ty_atom_spec, ty_spec, ErrorKind, Errs, BACKSLASH,
    CLOSE, COLON, DASH, DOT, GREATER, OPEN, SPACE,
};

verus! {

/// The bytes of a name, one per character.
pub open spec fn name_bytes(x: Seq<char>) -> Seq<u8> {
    x.map_values(|c: char| c as u8)
}

/// A name that the parser reads back: a letter or an underscore, then
/// letters, digits and underscores, each character a single byte.
pub open spec fn name_ok(x: Seq<char>) -> bool {
    let b = name_bytes(x);
    &&& x.len() > 0
    &&& chars_of(b, 0, b.len() as int) == x
    &&& is_ident_start(b[0])
    &&& forall|i: int| 0 <= i < b.len() ==> is_ident_byte(#[trigger] b[i])
}

/// `x` in parentheses.
pub open spec fn paren(x: Seq<u8>) -> Seq<u8> {
    seq![OPEN] + x + seq![CLOSE]
}

/// A separator between tokens: a non-empty run of spaces and newlines.
pub open spec fn separator(w: Seq<u8>) -> bool {
    &&& w.len() > 0
    &&& forall|i: int| 0 <= i < w.len() ==> is_space(#[trigger] w[i])
}

/// The text of a type with `w` between tokens: arrows to the right, an
/// arrow on the left of an arrow in parentheses.
pub open spec fn ty_text_ws(t: SType, w: Seq<u8>) -> Seq<u8>
    decreases t,
{
    match t {
        SType::Var(x) => name_bytes(x),
        SType::Arrow(a, b) => (if *a is Arrow {
            paren(ty_text_ws(*a, w))
        } else {
            ty_text_ws(*a, w)
        }) + w + seq![DASH, GREATER] + w + ty_text_ws(*b, w),
        SType::Forall(_, _) => Seq::empty(),
    }
}

/// The text of a type where an atom is expected, with `w` between tokens.
pub open spec fn ty_atom_text_ws(t: SType, w: Seq<u8>) -> Seq<u8> {
    if t is Arrow {
        paren(ty_text_ws(t, w))
    } else {
        ty_text_ws(t, w)
    }
}

/// The text of a type, with a single space between tokens.
pub open spec fn ty_text(t: SType) -> Seq<u8> {
    ty_text_ws(t, seq![SPACE])
}

/// The text of a type where an atom is expected, with a single space
/// between tokens.
pub open spec fn ty_atom_text(t: SType) -> Seq<u8> {
    ty_atom_text_ws(t, seq![SPACE])
}

/// Types that have a text: names that the parser reads back, and arrows.
pub open spec fn printable_ty(t: SType) -> bool
    decreases t,
{
    match t {
        SType::Var(x) => name_ok(x),
        SType::Arrow(a, b) => printable_ty(*a) && printable_ty(*b),
        SType::Forall(_, _) => false,
    }
}

/// `s` holds `x` from `pos` on.
pub open spec fn text_at(s: Seq<u8>, pos: int, x: Seq<u8>) -> bool {
    &&& 0 <= pos
    &&& pos + x.len() <= s.len()
    &&& s.subrange(pos, pos + x.len()) == x
}

/// The byte at `q`, if any, cannot continue a name.
pub open spec fn name_ends(s: Seq<u8>, q: int) -> bool {
    q == s.len() || (0 <= q < s.len() && !is_ident_byte(s[q]))
}

/// No arrow starts at `q`.
pub open spec fn no_arrow(s: Seq<u8>, q: int) -> bool {
    !(0 <= q && q + 1 < s.len() && s[q] == DASH && s[q + 1] == GREATER)
}

proof fn lemma_text_at_split(s: Seq<u8>, pos: int, x: Seq<u8>, y: Seq<u8>)
    requires
        text_at(s, pos, x + y),
    ensures
        text_at(s, pos, x),
        text_at(s, pos + x.len(), y),
{
    assert(s.subrange(pos, pos + x.len()) =~= (x + y).subrange(0, x.len() as int));
    assert((x + y).subrange(0, x.len() as int) =~= x);
    assert(s.subrange(pos + x.len(), pos + x.len() + y.len()) =~= (x + y).subrange(
        x.len() as int,
        (x + y).len() as int,
    ));
    assert((x + y).subrange(x.len() as int, (x + y).len() as int) =~= y);
}

proof fn lemma_text_at_byte(s: Seq<u8>, pos: int, x: Seq<u8>, i: int)
    requires
        text_at(s, pos, x),
        0 <= i < x.len(),
    ensures
        s[pos + i] == x[i],
{
    assert(s.subrange(pos, pos + x.len())[i] == s[pos + i]);
}

proof fn lemma_skip_none(s: Seq<u8>, q: int)
    requires
        0 <= q <= s.len(),
        q == s.len() || !is_space(s[q]),
    ensures
        skip_ws(s, q) == q,
{
}

proof fn lemma_skip_from(s: Seq<u8>, q: int, w: Seq<u8>, k: int)
    requires
        text_at(s, q, w),
        separator(w),
        0 <= k <= w.len(),
        q + w.len() == s.len() || !is_space(s[q + w.len()]),
    ensures
        skip_ws(s, q + k) == q + w.len(),
    decreases w.len() - k,
{
    if k < w.len() {
        lemma_text_at_byte(s, q, w, k);
        lemma_skip_from(s, q, w, k + 1);
    }
}

/// A separator in the text, followed by a byte that is no space, is skipped
/// whole.
proof fn lemma_skip_run(s: Seq<u8>, q: int, w: Seq<u8>)
    requires
        text_at(s, q, w),
        separator(w),
        q + w.len() == s.len() || !is_space(s[q + w.len()]),
    ensures
        skip_ws(s, q) == q + w.len(),
        name_ends(s, q),
{
    lemma_skip_from(s, q, w, 0);
    lemma_text_at_byte(s, q, w, 0);
}

proof fn lemma_skip_bounds(s: Seq<u8>, q: int)
    requires
        0 <= q <= s.len(),
    ensures
        q <= skip_ws(s, q) <= s.len(),
    decreases s.len() - q,
{
    if q < s.len() && is_space(s[q]) {
        lemma_skip_bounds(s, q + 1);
    }
}

proof fn lemma_ident_run(s: Seq<u8>, q: int, end: int)
    requires
        0 <= q <= end <= s.len(),
        forall|i: int| q <= i < end ==> is_ident_byte(#[trigger] s[i]),
        name_ends(s, end),
    ensures
        ident_end(s, q) == end,
    decreases end - q,
{
    if q < end {
        lemma_ident_run(s, q + 1, end);
    }
}

/// A name in the text: it starts with a name's first byte, runs to its
/// end, and reads back as itself.
proof fn lemma_name_at(s: Seq<u8>, pos: int, x: Seq<char>)
    requires
        name_ok(x),
        text_at(s, pos, name_bytes(x)),
        name_ends(s, pos + x.len()),
    ensures
        is_ident_start(s[pos]),
        forall|q: int| pos <= q <= pos + x.len() ==> ident_end(s, q) == pos + x.len(),
        chars_of(s, pos, pos + x.len()) == x,
{
    let b = name_bytes(x);
    lemma_text_at_byte(s, pos, b, 0);
    assert forall|i: int| pos <= i < pos + x.len() implies is_ident_byte(#[trigger] s[i]) by {
        lemma_text_at_byte(s, pos, b, i - pos);
    }
    assert forall|q: int| pos <= q <= pos + x.len() implies ident_end(s, q) == pos + x.len() by {
        lemma_ident_run(s, q, pos + x.len());
    }
    assert(b.subrange(0, b.len() as int) =~= b);
}

proof fn lemma_ty_first(t: SType, w: Seq<u8>)
    requires
        printable_ty(t),
    ensures
        ty_text_ws(t, w).len() > 0,
        is_ident_start(ty_text_ws(t, w)[0]) || ty_text_ws(t, w)[0] == OPEN,
        ty_atom_text_ws(t, w).len() > 0,
        is_ident_start(ty_atom_text_ws(t, w)[0]) || ty_atom_text_ws(t, w)[0] == OPEN,
    decreases t,
{
    match t {
        SType::Var(x) => {},
        SType::Arrow(a, b) => {
            lemma_ty_first(*a, w);
            let pa = ty_atom_text_ws(*a, w);
            assert(ty_text_ws(t, w) == pa + w + seq![DASH, GREATER] + w + ty_text_ws(*b, w));
            assert(ty_text_ws(t, w)[0] == pa[0]);
        },
        SType::Forall(_, _) => {},
    }
}

/// A name read as a type atom.
proof fn lemma_ty_name(s: Seq<u8>, pos: int, x: Seq<char>, errs: Errs)
    requires
        name_ok(x),
        text_at(s, pos, name_bytes(x)),
        name_ends(s, pos + x.len()),
    ensures
        ty_atom_spec(s, pos, errs) == (SType::Var(x), skip_ws(s, pos + x.len()), errs),
{
    lemma_name_at(s, pos, x);
}

/// The text of a type, followed by a byte that cannot continue it, reads
/// back as the type.
proof fn lemma_ty_text(t: SType, w: Seq<u8>, s: Seq<u8>, pos: int, errs: Errs)
    requires
        printable_ty(t),
        separator(w),
        text_at(s, pos, ty_text_ws(t, w)),
        name_ends(s, pos + ty_text_ws(t, w).len()),
        no_arrow(s, skip_ws(s, pos + ty_text_ws(t, w).len())),
    ensures
        ty_spec(s, pos, errs) == (t, skip_ws(s, pos + ty_text_ws(t, w).len()), errs),
    decreases t, 0nat,
{
    match t {
        SType::Var(x) => {
            lemma_ty_name(s, pos, x, errs);
        },
        SType::Arrow(a, b) => {
            let pa = ty_atom_text_ws(*a, w);
            let arrow = seq![DASH, GREATER];
            let pb = ty_text_ws(*b, w);
            assert(ty_text_ws(t, w) == pa + w + arrow + w + pb);
            lemma_text_at_split(s, pos, pa + w + arrow + w, pb);
            lemma_text_at_split(s, pos, pa + w + arrow, w);
            lemma_text_at_split(s, pos, pa + w, arrow);
            lemma_text_at_split(s, pos, pa, w);
            let q = pos + pa.len();
            let qa = q + w.len();
            lemma_text_at_byte(s, qa, arrow, 0);
            lemma_text_at_byte(s, qa, arrow, 1);
            lemma_ty_first(*b, w);
            let qb = qa + 2 + w.len();
            lemma_text_at_byte(s, qb, pb, 0);
            lemma_skip_run(s, q, w);
            lemma_ty_atom_text(*a, w, s, pos, errs);
            lemma_skip_run(s, qa + 2, w);
            lemma_ty_text(*b, w, s, qb, errs);
        },
        SType::Forall(_, _) => {},
    }
}

/// The atom text of a type, followed by a byte that cannot continue a
/// name, reads back as the type.
proof fn lemma_ty_atom_text(t: SType, w: Seq<u8>, s: Seq<u8>, pos: int, errs: Errs)
    requires
        printable_ty(t),
        separator(w),
        text_at(s, pos, ty_atom_text_ws(t, w)),
        name_ends(s, pos + ty_atom_text_ws(t, w).len()),
    ensures
        ty_atom_spec(s, pos, errs) == (t, skip_ws(s, pos + ty_atom_text_ws(t, w).len()), errs),
    decreases t, 1nat,
{
    match t {
        SType::Var(x) => {
            lemma_ty_name(s, pos, x, errs);
        },
        SType::Arrow(a, b) => {
            let inner = ty_text_ws(t, w);
            lemma_text_at_split(s, pos, seq![OPEN] + inner, seq![CLOSE]);
            lemma_text_at_split(s, pos, seq![OPEN], inner);
            lemma_text_at_byte(s, pos, seq![OPEN], 0);
            let e = pos + 1 + inner.len();
            lemma_text_at_byte(s, e, seq![CLOSE], 0);
            lemma_skip_none(s, e);
            lemma_ty_text(t, w, s, pos + 1, errs);
        },
        SType::Forall(_, _) => {},
    }
}

/// The text of a term with `w` between tokens: application to the left, a
/// lambda in function position and any argument but a name in parentheses.
pub open spec fn ev_text_ws(e: SEv, w: Seq<u8>) -> Seq<u8>
    decreases e,
{
    match e {
        SEv::Var(x) => name_bytes(x),
        SEv::App(f, a) => (if *f is Abs {
            paren(ev_text_ws(*f, w))
        } else {
            ev_text_ws(*f, w)
        }) + w + (if *a is Var {
            ev_text_ws(*a, w)
        } else {
            paren(ev_text_ws(*a, w))
        }),
        SEv::Abs(x, t, b) => seq![BACKSLASH] + name_bytes(x) + w + seq![COLON] + w + ty_text_ws(
            t,
            w,
        ) + seq![DOT] + w + ev_text_ws(*b, w),
        _ => Seq::empty(),
    }
}

/// The text of a term in function position, with `w` between tokens.
pub open spec fn fn_text_ws(e: SEv, w: Seq<u8>) -> Seq<u8> {
    if e is Abs {
        paren(ev_text_ws(e, w))
    } else {
        ev_text_ws(e, w)
    }
}

/// The text of a term in argument position, with `w` between tokens.
pub open spec fn arg_text_ws(e: SEv, w: Seq<u8>) -> Seq<u8> {
    if e is Var {
        ev_text_ws(e, w)
    } else {
        paren(ev_text_ws(e, w))
    }
}

/// The text of a term, with a single space between tokens.
pub open spec fn ev_text(e: SEv) -> Seq<u8> {
    ev_text_ws(e, seq![SPACE])
}

/// The text of a term in function position, with a single space between
/// tokens.
pub open spec fn fn_text(e: SEv) -> Seq<u8> {
    fn_text_ws(e, seq![SPACE])
}

/// The text of a term in argument position, with a single space between
/// tokens.
pub open spec fn arg_text(e: SEv) -> Seq<u8> {
    arg_text_ws(e, seq![SPACE])
}

/// Terms that have a text: names that the parser reads back,
/// applications, and lambdas with a type that has a text. Type abstraction
/// and application have none.
pub open spec fn printable(e: SEv) -> bool
    decreases e,
{
    match e {
        SEv::Var(x) => name_ok(x),
        SEv::App(f, a) => printable(*f) && printable(*a),
        SEv::Abs(x, t, b) => name_ok(x) && printable_ty(t) && printable(*b),
        _ => false,
    }
}

/// No term can go on at `q`.
pub open spec fn term_ends(s: Seq<u8>, q: int) -> bool {
    q == s.len() || (0 <= q < s.len() && !is_ident_start(s[q]) && s[q] != OPEN && s[q]
        != BACKSLASH)
}

proof fn lemma_ev_first(e: SEv, w: Seq<u8>)
    requires
        printable(e),
    ensures
        ev_text_ws(e, w).len() > 0,
        !is_space(ev_text_ws(e, w)[0]),
        !(e is Abs) ==> (is_ident_start(ev_text_ws(e, w)[0]) || ev_text_ws(e, w)[0] == OPEN),
        fn_text_ws(e, w).len() > 0,
        is_ident_start(fn_text_ws(e, w)[0]) || fn_text_ws(e, w)[0] == OPEN,
        arg_text_ws(e, w).len() > 0,
        is_ident_start(arg_text_ws(e, w)[0]) || arg_text_ws(e, w)[0] == OPEN,
    decreases e,
{
    match e {
        SEv::Var(x) => {},
        SEv::App(f, a) => {
            lemma_ev_first(*f, w);
            let pf = fn_text_ws(*f, w);
            assert(ev_text_ws(e, w) == pf + w + arg_text_ws(*a, w));
            assert(ev_text_ws(e, w)[0] == pf[0]);
        },
        SEv::Abs(x, t, b) => {},
        _ => {},
    }
}

/// A name read as a term atom.
proof fn lemma_ev_name(s: Seq<u8>, pos: int, x: Seq<char>, errs: Errs)
    requires
        name_ok(x),
        text_at(s, pos, name_bytes(x)),
        name_ends(s, pos + x.len()),
    ensures
        expr_atom_spec(s, pos, errs) == Some((SEv::Var(x), skip_ws(s, pos + x.len()), errs)),
        pos + x.len() <= skip_ws(s, pos + x.len()) <= s.len(),
{
    lemma_name_at(s, pos, x);
    lemma_skip_bounds(s, pos + x.len());
}

/// The text of a lambda, followed by what cannot continue a term, reads
/// back as the lambda.
proof fn lemma_lam_text(e: SEv, w: Seq<u8>, s: Seq<u8>, pos: int, errs: Errs)
    requires
        e is Abs,
        printable(e),
        separator(w),
        text_at(s, pos, ev_text_ws(e, w)),
        name_ends(s, pos + ev_text_ws(e, w).len()),
        term_ends(s, skip_ws(s, pos + ev_text_ws(e, w).len())),
    ensures
        expr_spec(s, pos, errs) == Some((e, skip_ws(s, pos + ev_text_ws(e, w).len()), errs)),
    decreases e, 0nat,
{
    if let SEv::Abs(x, t, b) = e {
        let nb = name_bytes(x);
        let colon = seq![COLON];
        let pt = ty_text_ws(t, w);
        let dot = seq![DOT];
        let pb = ev_text_ws(*b, w);
        let l = seq![BACKSLASH];
        assert(ev_text_ws(e, w) == l + nb + w + colon + w + pt + dot + w + pb);
        lemma_text_at_split(s, pos, l + nb + w + colon + w + pt + dot + w, pb);
        lemma_text_at_split(s, pos, l + nb + w + colon + w + pt + dot, w);
        lemma_text_at_split(s, pos, l + nb + w + colon + w + pt, dot);
        lemma_text_at_split(s, pos, l + nb + w + colon + w, pt);
        lemma_text_at_split(s, pos, l + nb + w + colon, w);
        lemma_text_at_split(s, pos, l + nb + w, colon);
        lemma_text_at_split(s, pos, l + nb, w);
        lemma_text_at_split(s, pos, l, nb);
        lemma_text_at_byte(s, pos, l, 0);
        let q1 = pos + 1 + x.len();
        let qc = q1 + w.len();
        lemma_text_at_byte(s, qc, colon, 0);
        lemma_skip_run(s, q1, w);
        lemma_name_at(s, pos + 1, x);
        let q4 = qc + 1 + w.len();
        lemma_ty_first(t, w);
        lemma_text_at_byte(s, q4, pt, 0);
        lemma_skip_run(s, qc + 1, w);
        let q5 = q4 + pt.len();
        lemma_text_at_byte(s, q5, dot, 0);
        lemma_skip_none(s, q5);
        lemma_ty_text(t, w, s, q4, errs);
        lemma_ev_first(*b, w);
        let q7 = q5 + 1 + w.len();
        lemma_text_at_byte(s, q7, pb, 0);
        lemma_skip_run(s, q5 + 1, w);
        lemma_ev_text(*b, w, s, q7, errs);
    }
}

/// The function-position text of a term, followed by a byte that cannot
/// continue a name, reads as the term with its arguments still to come.
proof fn lemma_fn_text(e: SEv, w: Seq<u8>, s: Seq<u8>, pos: int, errs: Errs)
    requires
        printable(e),
        separator(w),
        text_at(s, pos, fn_text_ws(e, w)),
        name_ends(s, pos + fn_text_ws(e, w).len()),
    ensures
        expr_spec(s, pos, errs) == tail_spec(s, skip_ws(s, pos + fn_text_ws(e, w).len()), e, errs),
        pos + fn_text_ws(e, w).len() <= skip_ws(s, pos + fn_text_ws(e, w).len()) <= s.len(),
    decreases e, 1nat,
{
    lemma_skip_bounds(s, pos + fn_text_ws(e, w).len());
    match e {
        SEv::Var(x) => {
            lemma_ev_name(s, pos, x, errs);
        },
        SEv::App(f, a) => {
            let pf = fn_text_ws(*f, w);
            let pa = arg_text_ws(*a, w);
            assert(fn_text_ws(e, w) == pf + w + pa);
            lemma_text_at_split(s, pos, pf + w, pa);
            lemma_text_at_split(s, pos, pf, w);
            let q = pos + pf.len();
            lemma_ev_first(*a, w);
            lemma_text_at_byte(s, q + w.len(), pa, 0);
            lemma_skip_run(s, q, w);
            lemma_fn_text(*f, w, s, pos, errs);
            lemma_arg_text(*a, w, s, q + w.len(), errs);
        },
        SEv::Abs(_, _, _) => {
            let inner = ev_text_ws(e, w);
            lemma_text_at_split(s, pos, seq![OPEN] + inner, seq![CLOSE]);
            lemma_text_at_split(s, pos, seq![OPEN], inner);
            lemma_text_at_byte(s, pos, seq![OPEN], 0);
            let q = pos + 1 + inner.len();
            lemma_text_at_byte(s, q, seq![CLOSE], 0);
            lemma_skip_none(s, q);
            lemma_lam_text(e, w, s, pos + 1, errs);
        },
        _ => {},
    }
}

/// The text of a term, followed by what cannot continue a term, reads
/// back as the term.
proof fn lemma_ev_text(e: SEv, w: Seq<u8>, s: Seq<u8>, pos: int, errs: Errs)
    requires
        printable(e),
        separator(w),
        text_at(s, pos, ev_text_ws(e, w)),
        name_ends(s, pos + ev_text_ws(e, w).len()),
        term_ends(s, skip_ws(s, pos + ev_text_ws(e, w).len())),
    ensures
        expr_spec(s, pos, errs) == Some((e, skip_ws(s, pos + ev_text_ws(e, w).len()), errs)),
    decreases e, 2nat,
{
    if e is Abs {
        lemma_lam_text(e, w, s, pos, errs);
    } else {
        lemma_fn_text(e, w, s, pos, errs);
    }
}

/// The argument-position text of a term, followed by a byte that cannot
/// continue a name, reads back as the term.
proof fn lemma_arg_text(e: SEv, w: Seq<u8>, s: Seq<u8>, pos: int, errs: Errs)
    requires
        printable(e),
        separator(w),
        text_at(s, pos, arg_text_ws(e, w)),
        name_ends(s, pos + arg_text_ws(e, w).len()),
    ensures
        expr_atom_spec(s, pos, errs) == Some((e, skip_ws(s, pos + arg_text_ws(e, w).len()), errs)),
        pos + arg_text_ws(e, w).len() <= skip_ws(s, pos + arg_text_ws(e, w).len()) <= s.len(),
    decreases e, 3nat,
{
    lemma_skip_bounds(s, pos + arg_text_ws(e, w).len());
    if let SEv::Var(x) = e {
        lemma_ev_name(s, pos, x, errs);
    } else {
        let inner = ev_text_ws(e, w);
        lemma_text_at_split(s, pos, seq![OPEN] + inner, seq![CLOSE]);
        lemma_text_at_split(s, pos, seq![OPEN], inner);
        lemma_text_at_byte(s, pos, seq![OPEN], 0);
        let q = pos + 1 + inner.len();
        lemma_text_at_byte(s, q, seq![CLOSE], 0);
        lemma_skip_none(s, q);
        lemma_ev_text(e, w, s, pos + 1, errs);
    }
}

/// Spaces and newlines between tokens do not matter: whatever non-empty run
/// of them separates the tokens of a term's text, parsing the text gives
/// the term back, with no errors, having read the whole text.
pub proof fn lemma_parse_text_ws(e: SEv, w: Seq<u8>)
    requires
        printable(e),
        separator(w),
    ensures
        parse_spec(ev_text_ws(e, w)) == Some(
            (e, Seq::<(int, ErrorKind)>::empty(), ev_text_ws(e, w).len() as int),
        ),
{
    let s = ev_text_ws(e, w);
    assert(s.subrange(0, s.len() as int) =~= s);
    lemma_ev_first(e, w);
    lemma_skip_none(s, 0);
    lemma_skip_none(s, s.len() as int);
    lemma_ev_text(e, w, s, 0, Seq::empty());
    assert(Seq::<(int, ErrorKind)>::empty().map_values(
        |x: (int, ErrorKind)| (0 - x.0, x.1),
    ) =~= Seq::<(int, ErrorKind)>::empty());
}

/// Parsing the text of a term gives the term back, with no errors, having
/// read the whole text.
pub proof fn lemma_parse_text(e: SEv)
    requires
        printable(e),
    ensures
        parse_spec(ev_text(e)) == Some((e, Seq::<(int, ErrorKind)>::empty(), ev_text(e).len() as int)),
{
    let w = seq![SPACE];
    assert(w[0] == SPACE);
    lemma_parse_text_ws(e, w);
}

} // verus!
