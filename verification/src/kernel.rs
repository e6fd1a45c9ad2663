//! The typing judgement and its inference rules.
//!
//! A `Proof` can only be built by the rules below, so every `Proof` value
//! holds a judgement that has a derivation: this is the type invariant of
//! `Proof`, and `Proof::get` states it to every caller.
use vstd::prelude::*;

use crate::lang::{
    capture_free, free_in, name_copy, name_eq, subst, Expr, SExpr, SType, Type,
};

verus! {

/// What a name stands for in a typing context.
#[derive(Debug, PartialEq, Eq)]
pub enum Bound {
    /// A type variable.
    TypeVar,
    /// A term variable of the given type.
    Var(Type),
}

/// Model of a binding.
pub enum SBound {
    TypeVar,
    Var(SType),
}

impl View for Bound {
    type V = SBound;

    open spec fn view(&self) -> SBound {
        match self {
            Bound::TypeVar => SBound::TypeVar,
            Bound::Var(t) => SBound::Var(t@),
        }
    }
}

/// A typing context: names bound to type variables or typed term variables.
pub type Context = Vec<(String, Bound)>;

/// The judgement `context |- expr : ty`.
#[derive(Debug, PartialEq, Eq)]
pub struct Typed {
    pub context: Context,
    pub expr: Expr,
    pub ty: Type,
}

/// The judgement that `ty` is a type whose free variables are in `context`.
#[derive(Debug, PartialEq, Eq)]
pub struct Universe {
    pub context: Vec<String>,
    pub ty: Type,
}

/// Model of a typing judgement.
pub struct STyped {
    pub context: Seq<(Seq<char>, SBound)>,
    pub expr: SExpr,
    pub ty: SType,
}

/// Model of a type-formation judgement.
pub struct SUniverse {
    pub context: Seq<Seq<char>>,
    pub ty: SType,
}

pub open spec fn context_model(c: Seq<(String, Bound)>) -> Seq<(Seq<char>, SBound)> {
    c.map_values(|p: (String, Bound)| (p.0@, p.1@))
}

pub open spec fn names_model(c: Seq<String>) -> Seq<Seq<char>> {
    c.map_values(|s: String| s@)
}

impl View for Typed {
    type V = STyped;

    open spec fn view(&self) -> STyped {
        STyped { context: context_model(self.context@), expr: self.expr@, ty: self.ty@ }
    }
}

impl View for Universe {
    type V = SUniverse;

    open spec fn view(&self) -> SUniverse {
        SUniverse { context: names_model(self.context@), ty: self.ty@ }
    }
}

/// No name occurs twice.
pub open spec fn names_unique(ns: Seq<Seq<char>>) -> bool {
    forall|i: int, j: int| 0 <= i < ns.len() && 0 <= j < ns.len() && i != j ==> ns[i] != ns[j]
}

/// The names that a context binds, in order.
pub open spec fn binding_names(cx: Seq<(Seq<char>, SBound)>) -> Seq<Seq<char>> {
    cx.map_values(|p: (Seq<char>, SBound)| p.0)
}

/// A type-formation judgement holds: its variables are distinct and every
/// free variable of the type is among them.
pub open spec fn wf_universe(u: SUniverse) -> bool {
    &&& names_unique(u.context)
    &&& forall|a: Seq<char>| free_in(u.ty, a) ==> u.context.contains(a)
}

/// `c1` followed by the names of `c2` that are not yet present.
pub open spec fn merge_names(c1: Seq<Seq<char>>, c2: Seq<Seq<char>>) -> Seq<Seq<char>>
    decreases c2.len(),
{
    if c2.len() == 0 {
        c1
    } else {
        let m = merge_names(c1, c2.drop_last());
        if m.contains(c2.last()) {
            m
        } else {
            m.push(c2.last())
        }
    }
}

/// `s |- s`
pub open spec fn rule_type_var(s: Seq<char>) -> SUniverse {
    SUniverse { context: seq![s], ty: SType::Var(s) }
}

/// `cx1 |- A` and `cx2 |- B` give `cx1 + cx2 |- A -> B`.
pub open spec fn rule_arrow(a: SUniverse, b: SUniverse) -> SUniverse {
    SUniverse {
        context: merge_names(a.context, b.context),
        ty: SType::Arrow(Box::new(a.ty), Box::new(b.ty)),
    }
}

/// `cx, p |- A` gives `cx |- forall p. A`.
pub open spec fn rule_quantify(u: SUniverse) -> Option<SUniverse> {
    if u.context.len() > 0 {
        Some(
            SUniverse {
                context: u.context.drop_last(),
                ty: SType::Forall(u.context.last(), Box::new(u.ty)),
            },
        )
    } else {
        None
    }
}

/// `cx |- A` gives `cx2 |- A` where `cx2` holds distinct names, among them those of `cx`.
pub open spec fn rule_structural_ty(u: SUniverse, cx: Seq<Seq<char>>) -> Option<SUniverse> {
    if names_unique(cx) && (forall|i: int| 0 <= i < u.context.len() ==> cx.contains(u.context[i])) {
        Some(SUniverse { context: cx, ty: u.ty })
    } else {
        None
    }
}

/// `cx |- A` gives `cx, x : A |- x : A`, the names of `cx` bound as type variables.
pub open spec fn rule_var(name: Seq<char>, u: SUniverse) -> Option<STyped> {
    if u.context.contains(name) {
        None
    } else {
        Some(
            STyped {
                context: u.context.map_values(|s: Seq<char>| (s, SBound::TypeVar)).push(
                    (name, SBound::Var(u.ty)),
                ),
                expr: SExpr::Var(name),
                ty: u.ty,
            },
        )
    }
}

/// `cx |- f : A -> B` and `cx |- e : A` give `cx |- f e : B`.
pub open spec fn rule_app(f: STyped, a: STyped) -> Option<STyped> {
    match f.ty {
        SType::Arrow(argt, rett) => if a.context == f.context && a.ty == *argt {
            Some(
                STyped {
                    context: a.context,
                    expr: SExpr::App(Box::new(f.expr), Box::new(a.expr)),
                    ty: *rett,
                },
            )
        } else {
            None
        },
        _ => None,
    }
}

/// `cx, x : A |- e : B` gives `cx |- (\x. e) : A -> B`.
pub open spec fn rule_abs(j: STyped) -> Option<STyped> {
    if j.context.len() > 0 {
        let (x, b) = j.context.last();
        match b {
            SBound::Var(t) => Some(
                STyped {
                    context: j.context.drop_last(),
                    expr: SExpr::Abs(x, Box::new(j.expr)),
                    ty: SType::Arrow(Box::new(t), Box::new(j.ty)),
                },
            ),
            SBound::TypeVar => None,
        }
    } else {
        None
    }
}

/// Whether a binding's type mentions the type variable `a`.
pub open spec fn bound_mentions(b: SBound, a: Seq<char>) -> bool {
    match b {
        SBound::Var(t) => free_in(t, a),
        SBound::TypeVar => false,
    }
}

/// `cx, a |- e : A`, where no binding of `cx` mentions `a`, gives `cx |- e : forall a. A`.
pub open spec fn rule_poly_abs(j: STyped) -> Option<STyped> {
    if j.context.len() > 0 {
        let (a, b) = j.context.last();
        if b is TypeVar && (forall|i: int|
            0 <= i < j.context.len() - 1 ==> !bound_mentions(#[trigger] j.context[i].1, a)) {
            Some(
                STyped {
                    context: j.context.drop_last(),
                    expr: j.expr,
                    ty: SType::Forall(a, Box::new(j.ty)),
                },
            )
        } else {
            None
        }
    } else {
        None
    }
}

/// `cx |- e : forall p. A` and `cx2 |- T`, where `cx` binds every name of
/// `cx2` as a type variable and the substitution captures nothing, give
/// `cx |- e : A[p := T]`.
pub open spec fn rule_poly_app(j: STyped, u: SUniverse) -> Option<STyped> {
    match j.ty {
        SType::Forall(p, body) => if (forall|i: int|
            0 <= i < u.context.len() ==> j.context.contains((u.context[i], SBound::TypeVar)))
            && capture_free(*body, p, u.ty) {
            Some(STyped { context: j.context, expr: j.expr, ty: subst(*body, p, u.ty) })
        } else {
            None
        },
        _ => None,
    }
}

/// Weakening, exchange and contraction in one step: `cx |- e : A` gives
/// `cx2 |- e : A` where `cx2` binds distinct names and holds every binding of `cx`.
pub open spec fn rule_structural(j: STyped, cx: Seq<(Seq<char>, SBound)>) -> Option<STyped> {
    if names_unique(binding_names(cx)) && (forall|i: int|
        0 <= i < j.context.len() ==> cx.contains(j.context[i])) {
        Some(STyped { context: cx, expr: j.expr, ty: j.ty })
    } else {
        None
    }
}

/// A derivation tree built from the inference rules.
pub enum Derivation {
    Var(Seq<char>, SUniverse),
    App(Box<Derivation>, Box<Derivation>),
    Abs(Box<Derivation>),
    PolyAbs(Box<Derivation>),
    PolyApp(Box<Derivation>, SUniverse),
    Exchange(Box<Derivation>, Seq<(Seq<char>, SBound)>),
}

/// The judgement that a derivation proves, if every step applies.
pub open spec fn conclusion(d: Derivation) -> Option<STyped>
    decreases d,
{
    match d {
        Derivation::Var(n, u) => if wf_universe(u) {
            rule_var(n, u)
        } else {
            None
        },
        Derivation::App(f, a) => match (conclusion(*f), conclusion(*a)) {
            (Some(jf), Some(ja)) => rule_app(jf, ja),
            _ => None,
        },
        Derivation::Abs(b) => match conclusion(*b) {
            Some(j) => rule_abs(j),
            None => None,
        },
        Derivation::PolyAbs(b) => match conclusion(*b) {
            Some(j) => rule_poly_abs(j),
            None => None,
        },
        Derivation::PolyApp(f, u) => if wf_universe(u) {
            match conclusion(*f) {
                Some(j) => rule_poly_app(j, u),
                None => None,
            }
        } else {
            None
        },
        Derivation::Exchange(b, cx) => match conclusion(*b) {
            Some(j) => rule_structural(j, cx),
            None => None,
        },
    }
}

/// A typing judgement is derivable when some derivation proves it.
pub open spec fn derivable(j: STyped) -> bool {
    exists|d: Derivation| #[trigger] conclusion(d) == Some(j)
}

/// Judgements that a `Proof` may hold, with what it means for them to hold.
pub trait Judgement: View {
    spec fn holds(&self) -> bool;
}

impl Judgement for Typed {
    open spec fn holds(&self) -> bool {
        derivable(self@)
    }
}

impl Judgement for Universe {
    open spec fn holds(&self) -> bool {
        wf_universe(self@)
    }
}

/// A proof of a judgement, built only by the inference rules on this type.
///
/// An expression truly has a type if and only if there is a `Proof` of the
/// judgement that it has that type.
#[derive(Debug, PartialEq, Eq)]
pub struct Proof<T: Judgement>(T);

/// A rule was applied to premises that it does not accept.
#[derive(Debug)]
pub struct IncompatibleStep(());

impl<T: Judgement> View for Proof<T> {
    type V = T::V;

    closed spec fn view(&self) -> T::V {
        self.0@
    }
}

impl<T: Judgement> Proof<T> {
    #[verifier::type_invariant]
    closed spec fn inv(self) -> bool {
        self.0.holds()
    }

    /// The judgement that this proof proves; it holds.
    pub fn get(&self) -> (r: &T)
        ensures
            r@ == self@,
            r.holds(),
    {
        proof {
            use_type_invariant(self);
        }
        &self.0
    }

    /// The judgement that this proof proves; it holds.
    pub fn into_inner(self) -> (r: T)
        ensures
            r@ == self@,
            r.holds(),
    {
        proof {
            use_type_invariant(&self);
        }
        self.0
    }
}

pub(crate) proof fn lemma_merge_names(c1: Seq<Seq<char>>, c2: Seq<Seq<char>>)
    ensures
        forall|x: Seq<char>|
            #[trigger] merge_names(c1, c2).contains(x) <==> c1.contains(x) || c2.contains(x),
        names_unique(c1) ==> names_unique(merge_names(c1, c2)),
    decreases c2.len(),
{
    if c2.len() > 0 {
        lemma_merge_names(c1, c2.drop_last());
        let m = merge_names(c1, c2.drop_last());
        assert forall|x: Seq<char>| #[trigger]
            merge_names(c1, c2).contains(x) <==> c1.contains(x) || c2.contains(x) by {
            if c2.contains(x) && !c2.drop_last().contains(x) {
                let k = choose|k: int| 0 <= k < c2.len() && c2[k] == x;
                if k < c2.len() - 1 {
                    assert(c2.drop_last()[k] == x);
                }
                assert(c2.last() == x);
                if !m.contains(x) {
                    assert(m.push(x)[m.len() as int] == x);
                }
            }
            if c2.drop_last().contains(x) {
                let k = choose|k: int| 0 <= k < c2.drop_last().len() && c2.drop_last()[k] == x;
                assert(c2[k] == x);
            }
            if merge_names(c1, c2).contains(x) && !m.contains(x) {
                assert(x == c2.last());
                assert(c2[c2.len() - 1] == x);
            }
            if m.contains(x) && !m.contains(c2.last()) {
                let k = choose|k: int| 0 <= k < m.len() && m[k] == x;
                assert(m.push(c2.last())[k] == x);
            }
        }
    }
}

/// Whether a name occurs in a list of names.
fn contains_name(v: &Vec<String>, s: &String) -> (r: bool)
    ensures
        r == names_model(v@).contains(s@),
{
    let mut i: usize = 0;
    while i < v.len()
        invariant
            i <= v.len(),
            forall|k: int| 0 <= k < i ==> names_model(v@)[k] != s@,
        decreases v.len() - i,
    {
        if name_eq(&v[i], s) {
            assert(names_model(v@)[i as int] == s@);
            return true;
        }
        i += 1;
    }
    false
}

pub(crate) proof fn lemma_names_push(v: Seq<String>, s: String)
    ensures
        names_model(v.push(s)) == names_model(v).push(s@),
{
    assert(names_model(v.push(s)) =~= names_model(v).push(s@));
}

impl Proof<Universe> {
    /// `s |- s`: a type variable is a type in the context that binds it.
    pub fn type_var(name: String) -> (r: Proof<Universe>)
        ensures
            r@ == rule_type_var(name@),
    {
        let mut cx: Vec<String> = Vec::new();
        cx.push(name_copy(&name));
        let u = Universe { context: cx, ty: Type::Var(name) };
        proof {
            assert(names_model(u.context@) =~= seq![name@]);
            assert(u@.context[0] == name@);
        }
        Proof(u)
    }

    /// A function type, in the union of its parts' contexts.
    pub fn arrow(a: Proof<Universe>, b: Proof<Universe>) -> (r: Proof<Universe>)
        ensures
            r@ == rule_arrow(a@, b@),
    {
        proof {
            use_type_invariant(&a);
            use_type_invariant(&b);
        }
        let Proof(ua) = a;
        let Proof(ub) = b;
        assert(wf_universe(ua@));
        let Universe { context: mut cx, ty: ta } = ua;
        let Universe { context: bcx, ty: tb } = ub;
        let ghost c1 = names_model(cx@);
        let ghost c2 = names_model(bcx@);
        let mut i: usize = 0;
        while i < bcx.len()
            invariant
                i <= bcx.len(),
                c2 == names_model(bcx@),
                names_model(cx@) == merge_names(c1, c2.take(i as int)),
            decreases bcx.len() - i,
        {
            proof {
                assert(c2.take(i + 1).drop_last() =~= c2.take(i as int));
                assert(c2.take(i + 1).last() == c2[i as int]);
            }
            if !contains_name(&cx, &bcx[i]) {
                proof {
                    lemma_names_push(cx@, bcx@[i as int]);
                }
                cx.push(name_copy(&bcx[i]));
            }
            i += 1;
        }
        proof {
            assert(c2.take(bcx.len() as int) =~= c2);
            lemma_merge_names(c1, c2);
            assert(names_unique(c1));
            assert(names_unique(names_model(cx@)));
        }
        let u = Universe { context: cx, ty: Type::Arrow(Box::new(ta), Box::new(tb)) };
        proof {
            assert(u@.ty == SType::Arrow(Box::new(ta@), Box::new(tb@)));
            assert forall|a: Seq<char>| free_in(u@.ty, a) implies u@.context.contains(a) by {
                if free_in(ta@, a) {
                    assert(c1.contains(a));
                } else {
                    assert(c2.contains(a));
                }
            }
        }
        Proof(u)
    }

    /// `cx, p |- A` gives `cx |- forall p. A`.
    pub fn quantify(self) -> (r: Result<Proof<Universe>, IncompatibleStep>)
        ensures
            r is Ok <==> rule_quantify(self@) is Some,
            r matches Ok(p) ==> p@ == rule_quantify(self@).unwrap(),
    {
        proof {
            use_type_invariant(&self);
        }
        let ghost u0 = self@;
        let Proof(u) = self;
        let Universe { context: mut cx, ty } = u;
        let ghost old_cx = cx@;
        match cx.pop() {
            None => Err(IncompatibleStep(())),
            Some(p) => {
                proof {
                    assert(old_cx == cx@.push(p));
                    assert(names_model(cx@) =~= u0.context.drop_last());
                    assert(u0.context.last() == p@);
                    assert forall|a: Seq<char>|
                        free_in(SType::Forall(p@, Box::new(ty@)), a) implies names_model(
                        cx@,
                    ).contains(a) by {
                        assert(a != p@);
                        assert(free_in(ty@, a));
                        assert(u0.context.contains(a));
                        let k = choose|k: int| 0 <= k < u0.context.len() && u0.context[k] == a;
                        assert(k != u0.context.len() - 1);
                        assert(names_model(cx@)[k] == a);
                    }
                }
                Ok(Proof(Universe { context: cx, ty: Type::Forall(p, Box::new(ty)) }))
            },
        }
    }

    /// `cx |- A` gives `cx2 |- A` when `cx2` holds distinct names, among them those of `cx`.
    pub fn structural_ty(self, context: Vec<String>) -> (r: Result<
        Proof<Universe>,
        IncompatibleStep,
    >)
        ensures
            r is Ok <==> rule_structural_ty(self@, names_model(context@)) is Some,
            r matches Ok(p) ==> p@ == rule_structural_ty(self@, names_model(context@)).unwrap(),
    {
        proof {
            use_type_invariant(&self);
        }
        let ghost u0 = self@;
        let ghost cx = names_model(context@);
        if !names_distinct(&context) {
            return Err(IncompatibleStep(()));
        }
        let Proof(u) = self;
        let mut i: usize = 0;
        while i < u.context.len()
            invariant
                i <= u.context.len(),
                u@ == u0,
                self@ == u0,
                cx == names_model(context@),
                forall|k: int| 0 <= k < i ==> cx.contains(u0.context[k]),
            decreases u.context.len() - i,
        {
            if !contains_name(&context, &u.context[i]) {
                assert(names_model(u.context@)[i as int] == u.context@[i as int]@);
                assert(!cx.contains(u0.context[i as int]));
                assert(rule_structural_ty(u0, cx) is None);
                return Err(IncompatibleStep(()));
            }
            i += 1;
        }
        let Universe { context: _, ty } = u;
        proof {
            assert forall|a: Seq<char>| free_in(ty@, a) implies cx.contains(a) by {
                let k = choose|k: int| 0 <= k < u0.context.len() && u0.context[k] == a;
                assert(cx.contains(u0.context[k]));
            }
        }
        Ok(Proof(Universe { context, ty }))
    }
}

/// Whether the names in a list are distinct.
fn names_distinct(v: &Vec<String>) -> (r: bool)
    ensures
        r == names_unique(names_model(v@)),
{
    let ghost ns = names_model(v@);
    let mut i: usize = 0;
    while i < v.len()
        invariant
            i <= v.len(),
            ns == names_model(v@),
            forall|a: int, b: int| 0 <= a < i && 0 <= b < i && a != b ==> ns[a] != ns[b],
        decreases v.len() - i,
    {
        let mut j: usize = 0;
        while j < i
            invariant
                j <= i < v.len(),
                ns == names_model(v@),
                forall|a: int, b: int| 0 <= a < i && 0 <= b < i && a != b ==> ns[a] != ns[b],
                forall|b: int| 0 <= b < j ==> ns[i as int] != ns[b],
            decreases i - j,
        {
            if name_eq(&v[i], &v[j]) {
                assert(ns[i as int] == ns[j as int]);
                return false;
            }
            j += 1;
        }
        i += 1;
    }
    true
}

/// The names of `ns`, each bound as a type variable.
pub open spec fn type_var_bindings(ns: Seq<Seq<char>>) -> Seq<(Seq<char>, SBound)> {
    ns.map_values(|s: Seq<char>| (s, SBound::TypeVar))
}

impl Bound {
    /// Structural equality of bindings.
    pub fn equals(&self, other: &Bound) -> (r: bool)
        ensures
            r == (self@ == other@),
    {
        match (self, other) {
            (Bound::TypeVar, Bound::TypeVar) => true,
            (Bound::Var(a), Bound::Var(b)) => a.equals(b),
            _ => false,
        }
    }

    /// A copy of the binding with the same model.
    pub fn copy(&self) -> (r: Bound)
        ensures
            r@ == self@,
    {
        match self {
            Bound::TypeVar => Bound::TypeVar,
            Bound::Var(t) => Bound::Var(t.copy()),
        }
    }
}

pub(crate) proof fn lemma_context_push(c: Seq<(String, Bound)>, s: String, b: Bound)
    ensures
        context_model(c.push((s, b))) == context_model(c).push((s@, b@)),
{
    assert(context_model(c.push((s, b))) =~= context_model(c).push((s@, b@)));
}

/// Equality of two contexts, binding by binding.
pub fn context_equals(a: &Context, b: &Context) -> (r: bool)
    ensures
        r == (context_model(a@) == context_model(b@)),
{
    let ghost ma = context_model(a@);
    let ghost mb = context_model(b@);
    if a.len() != b.len() {
        assert(ma.len() != mb.len());
        return false;
    }
    let mut i: usize = 0;
    while i < a.len()
        invariant
            i <= a.len() == b.len(),
            ma == context_model(a@),
            mb == context_model(b@),
            forall|k: int| 0 <= k < i ==> ma[k] == mb[k],
        decreases a.len() - i,
    {
        let same_name = name_eq(&a[i].0, &b[i].0);
        let same_bound = a[i].1.equals(&b[i].1);
        if !(same_name && same_bound) {
            assert(ma[i as int] != mb[i as int]);
            return false;
        }
        i += 1;
    }
    assert(ma =~= mb);
    true
}

/// A copy of a context with the same model.
pub fn context_copy(c: &Context) -> (r: Context)
    ensures
        context_model(r@) == context_model(c@),
{
    let mut out: Context = Vec::new();
    let mut i: usize = 0;
    while i < c.len()
        invariant
            i <= c.len(),
            context_model(out@) == context_model(c@).take(i as int),
        decreases c.len() - i,
    {
        let s = name_copy(&c[i].0);
        let b = c[i].1.copy();
        proof {
            lemma_context_push(out@, s, b);
            assert(context_model(c@).take(i + 1) =~= context_model(c@).take(i as int).push(
                (s@, b@),
            ));
        }
        out.push((s, b));
        i += 1;
    }
    assert(context_model(c@).take(c.len() as int) =~= context_model(c@));
    out
}

pub(crate) proof fn lemma_derive_app(jf: STyped, ja: STyped)
    requires
        derivable(jf),
        derivable(ja),
        rule_app(jf, ja) is Some,
    ensures
        derivable(rule_app(jf, ja).unwrap()),
{
    let df = choose|d: Derivation| conclusion(d) == Some(jf);
    let da = choose|d: Derivation| conclusion(d) == Some(ja);
    let d = Derivation::App(Box::new(df), Box::new(da));
    assert(conclusion(d) == rule_app(jf, ja));
}

pub(crate) proof fn lemma_derive_abs(j: STyped)
    requires
        derivable(j),
        rule_abs(j) is Some,
    ensures
        derivable(rule_abs(j).unwrap()),
{
    let d0 = choose|d: Derivation| conclusion(d) == Some(j);
    let d = Derivation::Abs(Box::new(d0));
    assert(conclusion(d) == rule_abs(j));
}

pub(crate) proof fn lemma_derive_poly_abs(j: STyped)
    requires
        derivable(j),
        rule_poly_abs(j) is Some,
    ensures
        derivable(rule_poly_abs(j).unwrap()),
{
    let d0 = choose|d: Derivation| conclusion(d) == Some(j);
    let d = Derivation::PolyAbs(Box::new(d0));
    assert(conclusion(d) == rule_poly_abs(j));
}

pub(crate) proof fn lemma_derive_poly_app(j: STyped, u: SUniverse)
    requires
        derivable(j),
        wf_universe(u),
        rule_poly_app(j, u) is Some,
    ensures
        derivable(rule_poly_app(j, u).unwrap()),
{
    let d0 = choose|d: Derivation| conclusion(d) == Some(j);
    let d = Derivation::PolyApp(Box::new(d0), u);
    assert(conclusion(d) == rule_poly_app(j, u));
}

pub(crate) proof fn lemma_derive_structural(j: STyped, cx: Seq<(Seq<char>, SBound)>)
    requires
        derivable(j),
        rule_structural(j, cx) is Some,
    ensures
        derivable(rule_structural(j, cx).unwrap()),
{
    let d0 = choose|d: Derivation| conclusion(d) == Some(j);
    let d = Derivation::Exchange(Box::new(d0), cx);
    assert(conclusion(d) == rule_structural(j, cx));
}

impl Proof<Typed> {
    /// `cx |- A` gives `cx, x : A |- x : A`, the names of `cx` bound as type
    /// variables; refused when `x` is one of those names.
    pub fn var(name: String, ty: Proof<Universe>) -> (r: Result<Proof<Typed>, IncompatibleStep>)
        ensures
            r is Ok <==> rule_var(name@, ty@) is Some,
            r matches Ok(p) ==> p@ == rule_var(name@, ty@).unwrap(),
    {
        proof {
            use_type_invariant(&ty);
        }
        let ghost u0 = ty@;
        let Proof(u) = ty;
        let Universe { context: names, ty: t } = u;
        let mut cx: Context = Vec::new();
        let mut i: usize = 0;
        while i < names.len()
            invariant
                i <= names.len(),
                ty@ == u0,
                names_model(names@) == u0.context,
                context_model(cx@) == type_var_bindings(u0.context.take(i as int)),
                forall|k: int| 0 <= k < i ==> u0.context[k] != name@,
            decreases names.len() - i,
        {
            if name_eq(&names[i], &name) {
                assert(u0.context[i as int] == name@);
                return Err(IncompatibleStep(()));
            }
            let s = name_copy(&names[i]);
            proof {
                lemma_context_push(cx@, s, Bound::TypeVar);
                assert(type_var_bindings(u0.context.take(i + 1)) =~= type_var_bindings(
                    u0.context.take(i as int),
                ).push((s@, SBound::TypeVar)));
            }
            cx.push((s, Bound::TypeVar));
            i += 1;
        }
        proof {
            assert(u0.context.take(names.len() as int) =~= u0.context);
            assert(!u0.context.contains(name@));
        }
        let b = Bound::Var(t.copy());
        let s = name_copy(&name);
        proof {
            lemma_context_push(cx@, s, b);
        }
        cx.push((s, b));
        let j = Typed { context: cx, expr: Expr::Var(name), ty: t };
        proof {
            let d = Derivation::Var(name@, u0);
            assert(conclusion(d) == Some(j@));
        }
        Ok(Proof(j))
    }

    /// `cx |- f : A -> B` and `cx |- e : A` give `cx |- f e : B`.
    pub fn app(self, arg: Proof<Typed>) -> (r: Result<Proof<Typed>, IncompatibleStep>)
        ensures
            r is Ok <==> rule_app(self@, arg@) is Some,
            r matches Ok(p) ==> p@ == rule_app(self@, arg@).unwrap(),
            r matches Ok(p) ==> self@.ty == SType::Arrow(Box::new(arg@.ty), Box::new(p@.ty)),
    {
        proof {
            use_type_invariant(&self);
            use_type_invariant(&arg);
        }
        let ghost jf = self@;
        let ghost ja = arg@;
        let Proof(f) = self;
        let Proof(a) = arg;
        let Typed { context: fcx, expr: fe, ty: fty } = f;
        let Typed { context: acx, expr: ae, ty: aty } = a;
        match fty {
            Type::Arrow(argt, rett) => {
                if context_equals(&acx, &fcx) && aty.equals(&argt) {
                    let j = Typed {
                        context: acx,
                        expr: Expr::App(Box::new(fe), Box::new(ae)),
                        ty: *rett,
                    };
                    proof {
                        assert(j@ == rule_app(jf, ja).unwrap());
                        lemma_derive_app(jf, ja);
                    }
                    Ok(Proof(j))
                } else {
                    Err(IncompatibleStep(()))
                }
            },
            _ => Err(IncompatibleStep(())),
        }
    }

    /// `cx, x : A |- e : B` gives `cx |- (\x. e) : A -> B`.
    pub fn abs(self) -> (r: Result<Proof<Typed>, IncompatibleStep>)
        ensures
            r is Ok <==> rule_abs(self@) is Some,
            r matches Ok(p) ==> p@ == rule_abs(self@).unwrap(),
    {
        proof {
            use_type_invariant(&self);
        }
        let ghost j0 = self@;
        let Proof(j) = self;
        let Typed { context: mut cx, expr, ty } = j;
        let ghost old_cx = cx@;
        match cx.pop() {
            None => Err(IncompatibleStep(())),
            Some((x, b)) => {
                proof {
                    assert(old_cx == cx@.push((x, b)));
                    assert(context_model(cx@) =~= j0.context.drop_last());
                    assert(j0.context.last() == (x@, b@));
                }
                match b {
                    Bound::Var(t) => {
                        let r = Typed {
                            context: cx,
                            expr: Expr::Abs(x, Box::new(expr)),
                            ty: Type::Arrow(Box::new(t), Box::new(ty)),
                        };
                        proof {
                            assert(r@ == rule_abs(j0).unwrap());
                            lemma_derive_abs(j0);
                        }
                        Ok(Proof(r))
                    },
                    Bound::TypeVar => Err(IncompatibleStep(())),
                }
            },
        }
    }

    /// `cx, a |- e : A`, where no binding of `cx` mentions `a`, gives
    /// `cx |- e : forall a. A`.
    pub fn poly_abs(self) -> (r: Result<Proof<Typed>, IncompatibleStep>)
        ensures
            r is Ok <==> rule_poly_abs(self@) is Some,
            r matches Ok(p) ==> p@ == rule_poly_abs(self@).unwrap(),
    {
        proof {
            use_type_invariant(&self);
        }
        let ghost j0 = self@;
        let Proof(j) = self;
        let Typed { context: mut cx, expr, ty } = j;
        let ghost old_cx = cx@;
        match cx.pop() {
            None => Err(IncompatibleStep(())),
            Some((a, b)) => {
                proof {
                    assert(old_cx == cx@.push((a, b)));
                    assert(context_model(cx@) =~= j0.context.drop_last());
                    assert(j0.context.last() == (a@, b@));
                }
                match b {
                    Bound::Var(_) => Err(IncompatibleStep(())),
                    Bound::TypeVar => {
                        let mut i: usize = 0;
                        while i < cx.len()
                            invariant
                                i <= cx.len(),
                                self@ == j0,
                                j0.context.len() > 0,
                                j0.context.last() == (a@, SBound::TypeVar),
                                context_model(cx@) == j0.context.drop_last(),
                                forall|k: int|
                                    0 <= k < i ==> !bound_mentions(
                                        #[trigger] j0.context[k].1,
                                        a@,
                                    ),
                            decreases cx.len() - i,
                        {
                            let mentions = match &cx[i].1 {
                                Bound::Var(t) => t.has_free(&a),
                                Bound::TypeVar => false,
                            };
                            assert(context_model(cx@).len() == cx@.len());
                            assert(i < j0.context.len() - 1);
                            assert(j0.context[i as int] == j0.context.drop_last()[i as int]);
                            if mentions {
                                assert(bound_mentions(j0.context[i as int].1, a@));
                                return Err(IncompatibleStep(()));
                            }
                            i += 1;
                        }
                        let r = Typed {
                            context: cx,
                            expr,
                            ty: Type::Forall(a, Box::new(ty)),
                        };
                        proof {
                            assert(r@ == rule_poly_abs(j0).unwrap());
                            lemma_derive_poly_abs(j0);
                        }
                        Ok(Proof(r))
                    },
                }
            },
        }
    }

    /// `cx |- e : forall p. A` and `cx2 |- T` give `cx |- e : A[p := T]`,
    /// when `cx` binds every name of `cx2` as a type variable and the
    /// substitution captures no free variable of `T`.
    pub fn poly_app(self, ty: Proof<Universe>) -> (r: Result<Proof<Typed>, IncompatibleStep>)
        ensures
            r is Ok <==> rule_poly_app(self@, ty@) is Some,
            r matches Ok(p) ==> p@ == rule_poly_app(self@, ty@).unwrap(),
    {
        proof {
            use_type_invariant(&self);
            use_type_invariant(&ty);
        }
        let ghost j0 = self@;
        let ghost u0 = ty@;
        let Proof(j) = self;
        let Proof(u) = ty;
        let Typed { context: cx, expr, ty: jty } = j;
        let Universe { context: names, ty: t } = u;
        match jty {
            Type::Forall(p, body) => {
                let mut i: usize = 0;
                while i < names.len()
                    invariant
                        i <= names.len(),
                        self@ == j0,
                        ty@ == u0,
                        names_model(names@) == u0.context,
                        context_model(cx@) == j0.context,
                        forall|k: int|
                            0 <= k < i ==> j0.context.contains((u0.context[k], SBound::TypeVar)),
                    decreases names.len() - i,
                {
                    if !binds_type_var(&cx, &names[i]) {
                        assert(!j0.context.contains((u0.context[i as int], SBound::TypeVar)));
                        return Err(IncompatibleStep(()));
                    }
                    i += 1;
                }
                if !body.substitution_is_capture_free(&p, &t) {
                    return Err(IncompatibleStep(()));
                }
                let nty = body.substitute(&p, &t);
                let r = Typed { context: cx, expr, ty: nty };
                proof {
                    assert(r@ == rule_poly_app(j0, u0).unwrap());
                    lemma_derive_poly_app(j0, u0);
                }
                Ok(Proof(r))
            },
            _ => Err(IncompatibleStep(())),
        }
    }

    /// Weakening, exchange and contraction in one step: `cx |- e : A` gives
    /// `context |- e : A` when `context` binds distinct names and holds every
    /// binding of `cx`.
    pub fn structural(self, context: Context) -> (r: Result<Proof<Typed>, IncompatibleStep>)
        ensures
            r is Ok <==> rule_structural(self@, context_model(context@)) is Some,
            r matches Ok(p) ==> p@ == rule_structural(self@, context_model(context@)).unwrap(),
    {
        proof {
            use_type_invariant(&self);
        }
        let ghost j0 = self@;
        let ghost cx = context_model(context@);
        if !bindings_distinct(&context) {
            return Err(IncompatibleStep(()));
        }
        let Proof(j) = self;
        let mut i: usize = 0;
        while i < j.context.len()
            invariant
                i <= j.context.len(),
                j@ == j0,
                self@ == j0,
                cx == context_model(context@),
                names_unique(binding_names(cx)),
                forall|k: int| 0 <= k < i ==> cx.contains(j0.context[k]),
            decreases j.context.len() - i,
        {
            let found = find_binding(&context, &j.context[i].0);
            assert(j0.context[i as int] == context_model(j.context@)[i as int]);
            match found {
                None => {
                    assert(!cx.contains(j0.context[i as int]));
                    assert(rule_structural(j0, cx) is None);
                    return Err(IncompatibleStep(()));
                },
                Some(k) => {
                    if !context[k].1.equals(&j.context[i].1) {
                        proof {
                            if cx.contains(j0.context[i as int]) {
                                let m = choose|m: int| 0 <= m < cx.len() && cx[m] == j0.context[i as int];
                                assert(binding_names(cx)[m] == binding_names(cx)[k as int]);
                            }
                        }
                        assert(rule_structural(j0, cx) is None);
                        return Err(IncompatibleStep(()));
                    }
                    assert(cx[k as int] == j0.context[i as int]);
                },
            }
            i += 1;
        }
        let Typed { context: _, expr, ty } = j;
        let r = Typed { context, expr, ty };
        proof {
            assert(r@ == rule_structural(j0, cx).unwrap());
            lemma_derive_structural(j0, cx);
        }
        Ok(Proof(r))
    }
}

/// Whether a context binds `s` as a type variable.
fn binds_type_var(cx: &Context, s: &String) -> (r: bool)
    ensures
        r == context_model(cx@).contains((s@, SBound::TypeVar)),
{
    let ghost m = context_model(cx@);
    let mut i: usize = 0;
    while i < cx.len()
        invariant
            i <= cx.len(),
            m == context_model(cx@),
            forall|k: int| 0 <= k < i ==> m[k] != (s@, SBound::TypeVar),
        decreases cx.len() - i,
    {
        let is_tv = match &cx[i].1 {
            Bound::TypeVar => true,
            Bound::Var(_) => false,
        };
        if is_tv && name_eq(&cx[i].0, s) {
            assert(m[i as int] == (s@, SBound::TypeVar));
            return true;
        }
        i += 1;
    }
    false
}

/// The first position at which a context binds `s`.
pub fn find_binding(cx: &Context, s: &String) -> (r: Option<usize>)
    ensures
        r matches Some(k) ==> k < cx.len() && context_model(cx@)[k as int].0 == s@ && forall|
            m: int,
        |
            0 <= m < k ==> context_model(cx@)[m].0 != s@,
        r is None ==> forall|m: int| 0 <= m < cx.len() ==> context_model(cx@)[m].0 != s@,
{
    let mut i: usize = 0;
    while i < cx.len()
        invariant
            i <= cx.len(),
            forall|m: int| 0 <= m < i ==> context_model(cx@)[m].0 != s@,
        decreases cx.len() - i,
    {
        if name_eq(&cx[i].0, s) {
            return Some(i);
        }
        i += 1;
    }
    None
}

/// Whether a context binds each name at most once.
fn bindings_distinct(cx: &Context) -> (r: bool)
    ensures
        r == names_unique(binding_names(context_model(cx@))),
{
    let ghost ns = binding_names(context_model(cx@));
    let mut i: usize = 0;
    while i < cx.len()
        invariant
            i <= cx.len(),
            ns == binding_names(context_model(cx@)),
            forall|a: int, b: int| 0 <= a < i && 0 <= b < i && a != b ==> ns[a] != ns[b],
        decreases cx.len() - i,
    {
        let mut j: usize = 0;
        while j < i
            invariant
                j <= i < cx.len(),
                ns == binding_names(context_model(cx@)),
                forall|a: int, b: int| 0 <= a < i && 0 <= b < i && a != b ==> ns[a] != ns[b],
                forall|b: int| 0 <= b < j ==> ns[i as int] != ns[b],
            decreases i - j,
        {
            if name_eq(&cx[i].0, &cx[j].0) {
                assert(ns[i as int] == ns[j as int]);
                return false;
            }
            j += 1;
        }
        i += 1;
    }
    true
}

/// Whether the term variable `x` occurs free in `e`.
pub open spec fn expr_free(e: SExpr, x: Seq<char>) -> bool
    decreases e,
{
    match e {
        SExpr::Var(s) => s == x,
        SExpr::App(f, a) => expr_free(*f, x) || expr_free(*a, x),
        SExpr::Abs(s, b) => s != x && expr_free(*b, x),
    }
}

/// Whether a context binds `x` as a term variable.
pub open spec fn binds_term(cx: Seq<(Seq<char>, SBound)>, x: Seq<char>) -> bool {
    exists|i: int| 0 <= i < cx.len() && (#[trigger] cx[i]).0 == x && cx[i].1 is Var
}

proof fn lemma_conclusion_names_unique(d: Derivation)
    ensures
        conclusion(d) matches Some(j) ==> names_unique(binding_names(j.context)),
    decreases d,
{
    match d {
        Derivation::Var(n, u) => {
            if let Some(j) = conclusion(d) {
                assert(binding_names(j.context) =~= u.context.push(n));
            }
        },
        Derivation::App(f, a) => {
            lemma_conclusion_names_unique(*a);
        },
        Derivation::Abs(b) => {
            lemma_conclusion_names_unique(*b);
            if let Some(j) = conclusion(d) {
                let j0 = conclusion(*b).unwrap();
                assert(binding_names(j.context) =~= binding_names(j0.context).drop_last());
            }
        },
        Derivation::PolyAbs(b) => {
            lemma_conclusion_names_unique(*b);
            if let Some(j) = conclusion(d) {
                let j0 = conclusion(*b).unwrap();
                assert(binding_names(j.context) =~= binding_names(j0.context).drop_last());
            }
        },
        Derivation::PolyApp(f, u) => {
            lemma_conclusion_names_unique(*f);
        },
        Derivation::Exchange(b, cx) => {},
    }
}

/// A derivable judgement binds each name of its context at most once.
pub proof fn lemma_derivable_names_unique(j: STyped)
    requires
        derivable(j),
    ensures
        names_unique(binding_names(j.context)),
{
    let d = choose|d: Derivation| conclusion(d) == Some(j);
    lemma_conclusion_names_unique(d);
}

proof fn lemma_conclusion_scoped(d: Derivation, x: Seq<char>)
    ensures
        conclusion(d) matches Some(j) ==> (expr_free(j.expr, x) ==> binds_term(j.context, x)),
    decreases d,
{
    match d {
        Derivation::Var(n, u) => {
            if let Some(j) = conclusion(d) {
                if expr_free(j.expr, x) {
                    let k = j.context.len() - 1;
                    assert(j.context[k] == (n, SBound::Var(u.ty)));
                }
            }
        },
        Derivation::App(f, a) => {
            lemma_conclusion_scoped(*f, x);
            lemma_conclusion_scoped(*a, x);
        },
        Derivation::Abs(b) => {
            lemma_conclusion_scoped(*b, x);
            if let Some(j) = conclusion(d) {
                let j0 = conclusion(*b).unwrap();
                if expr_free(j.expr, x) {
                    let i = choose|i: int|
                        0 <= i < j0.context.len() && (#[trigger] j0.context[i]).0 == x
                            && j0.context[i].1 is Var;
                    assert(i != j0.context.len() - 1);
                    assert(j.context[i] == j0.context[i]);
                }
            }
        },
        Derivation::PolyAbs(b) => {
            lemma_conclusion_scoped(*b, x);
            if let Some(j) = conclusion(d) {
                let j0 = conclusion(*b).unwrap();
                if expr_free(j.expr, x) {
                    let i = choose|i: int|
                        0 <= i < j0.context.len() && (#[trigger] j0.context[i]).0 == x
                            && j0.context[i].1 is Var;
                    assert(i != j0.context.len() - 1);
                    assert(j.context[i] == j0.context[i]);
                }
            }
        },
        Derivation::PolyApp(f, u) => {
            lemma_conclusion_scoped(*f, x);
        },
        Derivation::Exchange(b, cx) => {
            lemma_conclusion_scoped(*b, x);
            if let Some(j) = conclusion(d) {
                let j0 = conclusion(*b).unwrap();
                if expr_free(j.expr, x) {
                    let i = choose|i: int|
                        0 <= i < j0.context.len() && (#[trigger] j0.context[i]).0 == x
                            && j0.context[i].1 is Var;
                    assert(cx.contains(j0.context[i]));
                    let m = choose|m: int| 0 <= m < cx.len() && cx[m] == j0.context[i];
                    assert(j.context[m] == j0.context[i]);
                }
            }
        },
    }
}

/// In a derivable judgement every free term variable of the expression is
/// bound as a term variable in the context.
pub proof fn lemma_derivable_scoped(j: STyped, x: Seq<char>)
    requires
        derivable(j),
        expr_free(j.expr, x),
    ensures
        binds_term(j.context, x),
{
    let d = choose|d: Derivation| conclusion(d) == Some(j);
    lemma_conclusion_scoped(d, x);
}

/// An exchange of the context can be undone exactly: a judgement whose
/// names are distinct moves by the structural rule to any permutation of its
/// context, and from there back to its own context, which gives it back.
pub proof fn lemma_structural_round_trip(j: STyped, c: Seq<(Seq<char>, SBound)>)
    requires
        names_unique(binding_names(j.context)),
        c.to_multiset() == j.context.to_multiset(),
    ensures
        rule_structural(j, c) == Some(STyped { context: c, expr: j.expr, ty: j.ty }),
        rule_structural(rule_structural(j, c).unwrap(), j.context) == Some(j),
{
    broadcast use vstd::seq_lib::group_to_multiset_ensures;

    let d = j.context;
    assert forall|i: int| 0 <= i < d.len() implies c.contains(d[i]) by {
        assert(d.contains(d[i]));
        assert(d.to_multiset().count(d[i]) > 0);
        assert(c.to_multiset().count(d[i]) > 0);
    }
    assert forall|i: int| 0 <= i < c.len() implies d.contains(c[i]) by {
        assert(c.contains(c[i]));
        assert(c.to_multiset().count(c[i]) > 0);
        assert(d.to_multiset().count(c[i]) > 0);
    }
    assert forall|a: int, b: int|
        0 <= a < c.len() && 0 <= b < c.len() && a != b implies binding_names(c)[a]
        != binding_names(c)[b] by {
        if c[a].0 == c[b].0 {
            assert(c.contains(c[a]));
            assert(c.contains(c[b]));
            let qa = choose|q: int| 0 <= q < d.len() && d[q] == c[a];
            let qb = choose|q: int| 0 <= q < d.len() && d[q] == c[b];
            assert(binding_names(d)[qa] == binding_names(d)[qb]);
            let x = c[a];
            let cr = c.remove(b);
            let ia = if a < b { a } else { a - 1 };
            assert(cr[ia] == x);
            assert(cr.contains(x));
            assert(cr.to_multiset() == c.to_multiset().remove(c[b]));
            assert(cr.to_multiset().count(x) > 0);
            let dr = d.remove(qa);
            assert(dr.to_multiset() == d.to_multiset().remove(d[qa]));
            assert(dr.to_multiset().count(x) > 0);
            assert(dr.contains(x));
            let r = choose|r: int| 0 <= r < dr.len() && dr[r] == x;
            let r2 = if r < qa { r } else { r + 1 };
            assert(d[r2] == x);
            assert(binding_names(d)[r2] == binding_names(d)[qa]);
        }
    }
}

/// The application rule types `f e` only where `f` has a function type
/// whose parameter type is the type of `e`, both in the same context; the
/// application then has the function's result type.
pub proof fn lemma_app_typing(f: STyped, a: STyped)
    ensures
        rule_app(f, a) matches Some(r) ==> {
            &&& f.ty == SType::Arrow(Box::new(a.ty), Box::new(r.ty))
            &&& f.context == a.context
            &&& r.context == f.context
            &&& r.expr == SExpr::App(Box::new(f.expr), Box::new(a.expr))
        },
        (f.ty matches SType::Arrow(pt, rt) && f.context == a.context && a.ty == *pt) ==> rule_app(
            f,
            a,
        ) is Some,
{
}

/// Type application instantiates the quantified type without capture: the
/// free variables of the result type are those of the quantified body other
/// than the parameter, and, where the parameter occurs, those of the type
/// argument; the type argument's variables are bound in the context as type
/// variables.
pub proof fn lemma_poly_app_typing(j: STyped, u: SUniverse, p: Seq<char>, body: SType)
    requires
        j.ty == SType::Forall(p, Box::new(body)),
    ensures
        rule_poly_app(j, u) matches Some(r) ==> {
            &&& r.context == j.context
            &&& r.expr == j.expr
            &&& wf_universe(u) ==> forall|n: Seq<char>|
                free_in(u.ty, n) ==> #[trigger] r.context.contains((n, SBound::TypeVar))
            &&& forall|x: Seq<char>| #[trigger]
                free_in(r.ty, x) <==> ((free_in(body, x) && x != p) || (free_in(body, p) && free_in(
                    u.ty,
                    x,
                )))
        },
{
    if let Some(r) = rule_poly_app(j, u) {
        assert forall|x: Seq<char>| #[trigger]
            free_in(r.ty, x) <==> ((free_in(body, x) && x != p) || (free_in(body, p) && free_in(
                u.ty,
                x,
            ))) by {
            crate::lang::lemma_subst_free(body, p, u.ty, x);
        }
        if wf_universe(u) {
            assert forall|n: Seq<char>| free_in(u.ty, n) implies #[trigger] r.context.contains(
                (n, SBound::TypeVar),
            ) by {
                let i = choose|i: int| 0 <= i < u.context.len() && u.context[i] == n;
            }
        }
    }
}

/// A copy of a list of names with the same model.
pub fn names_copy(v: &Vec<String>) -> (r: Vec<String>)
    ensures
        names_model(r@) == names_model(v@),
{
    let mut out: Vec<String> = Vec::new();
    let mut i: usize = 0;
    while i < v.len()
        invariant
            i <= v.len(),
            names_model(out@) == names_model(v@).take(i as int),
        decreases v.len() - i,
    {
        let s = name_copy(&v[i]);
        proof {
            lemma_names_push(out@, s);
            assert(names_model(v@).take(i + 1) =~= names_model(v@).take(i as int).push(s@));
        }
        out.push(s);
        i += 1;
    }
    assert(names_model(v@).take(v.len() as int) =~= names_model(v@));
    out
}

impl Typed {
    /// A copy of the judgement with the same model.
    pub fn copy(&self) -> (r: Typed)
        ensures
            r@ == self@,
    {
        Typed { context: context_copy(&self.context), expr: self.expr.copy(), ty: self.ty.copy() }
    }
}

impl Proof<Typed> {
    /// A second proof of the same typing judgement.
    pub fn copy(&self) -> (r: Proof<Typed>)
        ensures
            r@ == self@,
    {
        proof {
            use_type_invariant(self);
        }
        Proof(self.0.copy())
    }
}

impl Proof<Universe> {
    /// A second proof of the same type-formation judgement.
    pub fn copy(&self) -> (r: Proof<Universe>)
        ensures
            r@ == self@,
    {
        proof {
            use_type_invariant(self);
        }
        let u = Universe { context: names_copy(&self.0.context), ty: self.0.ty.copy() };
        Proof(u)
    }
}

} // verus!
