//! The core language: terms and types checked by the kernel, with their
//! mathematical models.
use vstd::prelude::*;

verus! {

/// Terms of the core language. Type abstraction and application leave no
/// trace in terms: typing is in the style of Curry.
#[derive(Debug, PartialEq, Eq)]
pub enum Expr {
    Var(String),
    App(Box<Expr>, Box<Expr>),
    Abs(String, Box<Expr>),
}

/// Types: type variables, functions and universal quantification.
#[derive(Debug, PartialEq, Eq)]
pub enum Type {
    Var(String),
    Arrow(Box<Type>, Box<Type>),
    Forall(String, Box<Type>),
}

/// Model of a term: names are sequences of characters.
pub enum SExpr {
    Var(Seq<char>),
    App(Box<SExpr>, Box<SExpr>),
    Abs(Seq<char>, Box<SExpr>),
}

/// Model of a type.
pub enum SType {
    Var(Seq<char>),
    Arrow(Box<SType>, Box<SType>),
    Forall(Seq<char>, Box<SType>),
}

pub open spec fn expr_model(e: Expr) -> SExpr
    decreases e,
{
    match e {
        Expr::Var(s) => SExpr::Var(s@),
        Expr::App(f, a) => SExpr::App(Box::new(expr_model(*f)), Box::new(expr_model(*a))),
        Expr::Abs(s, b) => SExpr::Abs(s@, Box::new(expr_model(*b))),
    }
}

pub open spec fn type_model(t: Type) -> SType
    decreases t,
{
    match t {
        Type::Var(s) => SType::Var(s@),
        Type::Arrow(a, b) => SType::Arrow(Box::new(type_model(*a)), Box::new(type_model(*b))),
        Type::Forall(s, b) => SType::Forall(s@, Box::new(type_model(*b))),
    }
}

impl View for Expr {
    type V = SExpr;

    open spec fn view(&self) -> SExpr {
        expr_model(*self)
    }
}

impl View for Type {
    type V = SType;

    open spec fn view(&self) -> SType {
        type_model(*self)
    }
}

/// Whether the type variable `a` occurs free in `t`.
pub open spec fn free_in(t: SType, a: Seq<char>) -> bool
    decreases t,
{
    match t {
        SType::Var(s) => s == a,
        SType::Arrow(x, y) => free_in(*x, a) || free_in(*y, a),
        SType::Forall(q, b) => q != a && free_in(*b, a),
    }
}

/// `t` with the free occurrences of `p` replaced by `s`.
pub open spec fn subst(t: SType, p: Seq<char>, s: SType) -> SType
    decreases t,
{
    match t {
        SType::Var(q) => if q == p { s } else { SType::Var(q) },
        SType::Arrow(x, y) => SType::Arrow(Box::new(subst(*x, p, s)), Box::new(subst(*y, p, s))),
        SType::Forall(q, b) => if q == p {
            SType::Forall(q, b)
        } else {
            SType::Forall(q, Box::new(subst(*b, p, s)))
        },
    }
}

/// Replacing `p` by `s` in `t` binds no free variable of `s`.
pub open spec fn capture_free(t: SType, p: Seq<char>, s: SType) -> bool
    decreases t,
{
    match t {
        SType::Var(_) => true,
        SType::Arrow(x, y) => capture_free(*x, p, s) && capture_free(*y, p, s),
        SType::Forall(q, b) => q == p || ((!free_in(*b, p) || !free_in(s, q)) && capture_free(
            *b,
            p,
            s,
        )),
    }
}

/// Substituting for a variable that does not occur free changes nothing.
pub proof fn lemma_subst_unused(t: SType, p: Seq<char>, s: SType)
    requires
        !free_in(t, p),
    ensures
        subst(t, p, s) == t,
    decreases t,
{
    match t {
        SType::Var(_) => {},
        SType::Arrow(x, y) => {
            lemma_subst_unused(*x, p, s);
            lemma_subst_unused(*y, p, s);
        },
        SType::Forall(q, b) => {
            if q != p {
                lemma_subst_unused(*b, p, s);
            }
        },
    }
}

/// Substitution removes the variable: after replacing `p` by a type in
/// which `p` is not free, `p` is not free any more.
pub proof fn lemma_subst_removes(t: SType, p: Seq<char>, s: SType)
    requires
        !free_in(s, p),
    ensures
        !free_in(subst(t, p, s), p),
    decreases t,
{
    match t {
        SType::Var(_) => {},
        SType::Arrow(x, y) => {
            lemma_subst_removes(*x, p, s);
            lemma_subst_removes(*y, p, s);
        },
        SType::Forall(q, b) => {
            if q != p {
                lemma_subst_removes(*b, p, s);
            }
        },
    }
}

/// The free variables after a substitution that captures nothing: those of
/// `t` other than `p`, and, where `p` occurs free in `t`, those of `s`.
pub proof fn lemma_subst_free(t: SType, p: Seq<char>, s: SType, x: Seq<char>)
    requires
        capture_free(t, p, s),
    ensures
        free_in(subst(t, p, s), x) <==> ((free_in(t, x) && x != p) || (free_in(t, p) && free_in(
            s,
            x,
        ))),
    decreases t,
{
    match t {
        SType::Var(_) => {},
        SType::Arrow(a, b) => {
            lemma_subst_free(*a, p, s, x);
            lemma_subst_free(*b, p, s, x);
        },
        SType::Forall(q, b) => {
            if q != p {
                lemma_subst_free(*b, p, s, x);
            }
        },
    }
}

/// Equality of names, decided on their characters.
pub fn name_eq(a: &String, b: &String) -> (r: bool)
    ensures
        r == (a@ == b@),
{
    a.eq(b)
}

/// A copy of a name with the same characters.
pub fn name_copy(a: &String) -> (r: String)
    ensures
        r@ == a@,
{
    a.clone()
}

impl Type {
    /// Structural equality of types.
    pub fn equals(&self, other: &Type) -> (r: bool)
        ensures
            r == (self@ == other@),
        decreases self,
    {
        match (self, other) {
            (Type::Var(a), Type::Var(b)) => name_eq(a, b),
            (Type::Arrow(a1, b1), Type::Arrow(a2, b2)) => {
                let x = a1.equals(a2);
                let y = b1.equals(b2);
                x && y
            },
            (Type::Forall(a1, b1), Type::Forall(a2, b2)) => {
                let x = name_eq(a1, a2);
                let y = b1.equals(b2);
                x && y
            },
            _ => false,
        }
    }

    /// A copy of the type with the same model.
    pub fn copy(&self) -> (r: Type)
        ensures
            r@ == self@,
        decreases self,
    {
        match self {
            Type::Var(a) => Type::Var(name_copy(a)),
            Type::Arrow(a, b) => Type::Arrow(Box::new(a.copy()), Box::new(b.copy())),
            Type::Forall(a, b) => Type::Forall(name_copy(a), Box::new(b.copy())),
        }
    }

    /// Whether the type variable `a` occurs free in this type.
    pub fn has_free(&self, a: &String) -> (r: bool)
        ensures
            r == free_in(self@, a@),
        decreases self,
    {
        match self {
            Type::Var(s) => name_eq(s, a),
            Type::Arrow(x, y) => {
                let l = x.has_free(a);
                let r = y.has_free(a);
                l || r
            },
            Type::Forall(q, b) => {
                let same = name_eq(q, a);
                let inner = b.has_free(a);
                !same && inner
            },
        }
    }

    /// Whether replacing `p` by `s` in this type captures a free variable of `s`.
    pub fn substitution_is_capture_free(&self, p: &String, s: &Type) -> (r: bool)
        ensures
            r == capture_free(self@, p@, s@),
        decreases self,
    {
        match self {
            Type::Var(_) => true,
            Type::Arrow(x, y) => {
                let l = x.substitution_is_capture_free(p, s);
                let r = y.substitution_is_capture_free(p, s);
                l && r
            },
            Type::Forall(q, b) => {
                if name_eq(q, p) {
                    true
                } else {
                    let occurs = b.has_free(p);
                    let captured = s.has_free(q);
                    let inner = b.substitution_is_capture_free(p, s);
                    (!occurs || !captured) && inner
                }
            },
        }
    }

    /// This type with the free occurrences of `p` replaced by `s`.
    pub fn substitute(&self, p: &String, s: &Type) -> (r: Type)
        ensures
            r@ == subst(self@, p@, s@),
        decreases self,
    {
        match self {
            Type::Var(q) => if name_eq(q, p) {
                s.copy()
            } else {
                Type::Var(name_copy(q))
            },
            Type::Arrow(x, y) => Type::Arrow(
                Box::new(x.substitute(p, s)),
                Box::new(y.substitute(p, s)),
            ),
            Type::Forall(q, b) => if name_eq(q, p) {
                self.copy()
            } else {
                Type::Forall(name_copy(q), Box::new(b.substitute(p, s)))
            },
        }
    }
}

impl Expr {
    /// A copy of the term with the same model.
    pub fn copy(&self) -> (r: Expr)
        ensures
            r@ == self@,
        decreases self,
    {
        match self {
            Expr::Var(a) => Expr::Var(name_copy(a)),
            Expr::App(f, a) => Expr::App(Box::new(f.copy()), Box::new(a.copy())),
            Expr::Abs(a, b) => Expr::Abs(name_copy(a), Box::new(b.copy())),
        }
    }

    /// Structural equality of terms.
    pub fn equals(&self, other: &Expr) -> (r: bool)
        ensures
            r == (self@ == other@),
        decreases self,
    {
        match (self, other) {
            (Expr::Var(a), Expr::Var(b)) => name_eq(a, b),
            (Expr::App(f1, a1), Expr::App(f2, a2)) => {
                let x = f1.equals(f2);
                let y = a1.equals(a2);
                x && y
            },
            (Expr::Abs(a1, b1), Expr::Abs(a2, b2)) => {
                let x = name_eq(a1, a2);
                let y = b1.equals(b2);
                x && y
            },
            _ => false,
        }
    }
}

} // verus!
