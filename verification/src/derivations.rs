//! Checking evidence with the kernel, inferring the structural steps
//! (weakening, exchange, contraction) that the evidence leaves out.
use vstd::prelude::*;

use crate::ast::{erase, SEv, TypedEv};
use crate::kernel::{
    binding_names, context_copy, context_model, derivable, find_binding, lemma_context_push,
    lemma_derivable_names_unique, lemma_names_push, names_copy, names_model, names_unique,
    rule_abs, rule_app, rule_arrow, rule_poly_abs, rule_poly_app, rule_quantify, rule_structural,
    rule_structural_ty, rule_type_var, rule_var, bound_mentions, IncompatibleStep, type_var_bindings, wf_universe, Bound, Context, Judgement,
    Proof, SBound, STyped, SUniverse, Typed, Universe,
};
use crate::lang::{free_in, name_copy, name_eq, SType, Type};

verus! {

/// The judgement that `t` is a type, in the context of its free variables,
/// as built from the kernel's type-formation rules.
pub open spec fn type_universe(t: SType) -> SUniverse
    decreases t,
{
    match t {
        SType::Var(s) => rule_type_var(s),
        SType::Arrow(a, b) => rule_arrow(type_universe(*a), type_universe(*b)),
        SType::Forall(p, b) => forall_spec(type_universe(*b), p),
    }
}

/// Some position at which `ns` holds `s`.
pub open spec fn position_of(ns: Seq<Seq<char>>, s: Seq<char>) -> int {
    choose|i: int| 0 <= i < ns.len() && ns[i] == s
}

/// Quantifying over `p`: `p` is taken out of the context, the last name
/// taking its place.
pub open spec fn forall_spec(u: SUniverse, p: Seq<char>) -> SUniverse {
    let cx = u.context;
    if cx.contains(p) {
        let i = position_of(cx, p);
        SUniverse {
            context: cx.update(i, cx.last()).drop_last(),
            ty: SType::Forall(p, Box::new(u.ty)),
        }
    } else {
        SUniverse { context: cx, ty: SType::Forall(p, Box::new(u.ty)) }
    }
}

/// The first position at which a list of names holds `s`.
fn find_name(v: &Vec<String>, s: &String) -> (r: Option<usize>)
    ensures
        r matches Some(k) ==> k < v.len() && names_model(v@)[k as int] == s@,
        r is None ==> !names_model(v@).contains(s@),
{
    let mut i: usize = 0;
    while i < v.len()
        invariant
            i <= v.len(),
            forall|m: int| 0 <= m < i ==> names_model(v@)[m] != s@,
        decreases v.len() - i,
    {
        if name_eq(&v[i], s) {
            return Some(i);
        }
        i += 1;
    }
    None
}

/// The kernel's quantification rule, with the quantified variable first
/// moved to the end of the context wherever it is bound.
pub fn forall_type(body: Proof<Universe>, param: String) -> (r: Proof<Universe>)
    ensures
        r@ == forall_spec(body@, param@),
{
    let ghost u = body@;
    let mut cx = names_copy(&body.get().context);
    let ghost c0 = names_model(cx@);
    match find_name(&cx, &param) {
        Some(i) => {
            let n = cx.len() - 1;
            if i < n {
                let last = name_copy(&cx[n]);
                proof {
                    assert(names_model(cx@.update(i as int, last)) =~= c0.update(i as int, c0.last()));
                }
                cx.set(i, last);
            } else {
                assert(c0.update(i as int, c0.last()) =~= c0);
            }
            let ghost c1 = names_model(cx@);
            let _ = cx.pop();
            let p = name_copy(&param);
            proof {
                assert(names_model(cx@) =~= c1.drop_last());
                lemma_names_push(cx@, p);
                let k = position_of(c0, param@);
                assert(k == i) by {
                    assert(names_unique(c0));
                }
                // the names stay distinct
                assert forall|a: int, b: int|
                    0 <= a < c1.len() && 0 <= b < c1.len() && a != b implies c1.drop_last().push(
                    param@,
                )[a] != c1.drop_last().push(param@)[b] by {
                    let s = c1.drop_last().push(param@);
                    if a == c1.len() - 1 || b == c1.len() - 1 {
                        let o = if a == c1.len() - 1 { b } else { a };
                        if o == i {
                            assert(s[o] == c0[n as int]);
                        } else {
                            assert(s[o] == c0[o]);
                        }
                    } else {
                        let sa = if a == i { n as int } else { a };
                        let sb = if b == i { n as int } else { b };
                        assert(s[a] == c0[sa]);
                        assert(s[b] == c0[sb]);
                    }
                }
                assert forall|k2: int| 0 <= k2 < c0.len() implies c1.drop_last().push(
                    param@,
                ).contains(c0[k2]) by {
                    let s = c1.drop_last().push(param@);
                    if k2 == i {
                        assert(s[n as int] == c0[k2]);
                    } else if k2 == n {
                        assert(s[i as int] == c0[k2]);
                    } else {
                        assert(s[k2] == c0[k2]);
                    }
                }
            }
            cx.push(p);
            let moved = body.structural_ty(cx).unwrap();
            let r = moved.quantify().unwrap();
            proof {
                assert(c1.drop_last().push(param@).drop_last() =~= c1.drop_last());
                assert(c1 == c0.update(i as int, c0.last()));
                assert(u.context == c0);
            }
            r
        },
        None => {
            let p = name_copy(&param);
            proof {
                lemma_names_push(cx@, p);
                let s = c0.push(param@);
                assert forall|a: int, b: int|
                    0 <= a < s.len() && 0 <= b < s.len() && a != b implies s[a] != s[b] by {
                    if a < c0.len() && b < c0.len() {
                    } else if a < c0.len() {
                        assert(c0[a] == s[a]);
                    } else {
                        assert(c0[b] == s[b]);
                    }
                }
                assert forall|k2: int| 0 <= k2 < c0.len() implies s.contains(c0[k2]) by {
                    assert(s[k2] == c0[k2]);
                }
            }
            cx.push(p);
            let moved = body.structural_ty(cx).unwrap();
            let r = moved.quantify().unwrap();
            proof {
                assert(c0.push(param@).drop_last() =~= c0);
            }
            r
        },
    }
}

/// The type-formation judgement of a type, in the context of its free variables.
fn verify_universe(t: &Type) -> (r: Proof<Universe>)
    ensures
        r@ == type_universe(t@),
    decreases t,
{
    match t {
        Type::Var(s) => Proof::type_var(name_copy(s)),
        Type::Arrow(a, b) => Proof::arrow(verify_universe(a), verify_universe(b)),
        Type::Forall(param, body) => forall_type(verify_universe(body), name_copy(param)),
    }
}

/// Model of a context index: each name is bound either to nothing (a type
/// variable) or to the type-formation judgement of a term variable's type.
pub type IndexModel = Map<Seq<char>, Option<SUniverse>>;

pub open spec fn entry_value(o: Option<Proof<Universe>>) -> Option<SUniverse> {
    match o {
        Some(p) => Some(p@),
        None => None,
    }
}

pub open spec fn entries_model(v: Seq<(String, Option<Proof<Universe>>)>) -> Seq<
    (Seq<char>, Option<SUniverse>),
> {
    v.map_values(|e: (String, Option<Proof<Universe>>)| (e.0@, entry_value(e.1)))
}

pub open spec fn keys_unique(es: Seq<(Seq<char>, Option<SUniverse>)>) -> bool {
    forall|i: int, j: int|
        0 <= i < es.len() && 0 <= j < es.len() && i != j ==> (#[trigger] es[i]).0 != (
        #[trigger] es[j]).0
}

pub open spec fn entries_map(es: Seq<(Seq<char>, Option<SUniverse>)>) -> IndexModel {
    Map::new(
        |k: Seq<char>| exists|i: int| 0 <= i < es.len() && es[i].0 == k,
        |k: Seq<char>| es[choose|i: int| 0 <= i < es.len() && es[i].0 == k].1,
    )
}

proof fn lemma_map_at(es: Seq<(Seq<char>, Option<SUniverse>)>, i: int)
    requires
        keys_unique(es),
        0 <= i < es.len(),
    ensures
        entries_map(es).contains_key(es[i].0),
        entries_map(es)[es[i].0] == es[i].1,
{
    let k = es[i].0;
    assert(entries_map(es).dom().contains(k));
    let j = choose|j: int| 0 <= j < es.len() && es[j].0 == k;
    assert(j == i);
}

proof fn lemma_map_push(es: Seq<(Seq<char>, Option<SUniverse>)>, k: Seq<char>, v: Option<SUniverse>)
    requires
        keys_unique(es),
        !entries_map(es).contains_key(k),
    ensures
        keys_unique(es.push((k, v))),
        entries_map(es.push((k, v))) == entries_map(es).insert(k, v),
{
    let es2 = es.push((k, v));
    assert forall|i: int, j: int|
        0 <= i < es2.len() && 0 <= j < es2.len() && i != j implies (#[trigger] es2[i]).0 != (
        #[trigger] es2[j]).0 by {
        if i < es.len() && j < es.len() {
            assert(es2[i] == es[i] && es2[j] == es[j]);
        } else if i < es.len() {
            assert(es2[i] == es[i]);
            assert(!(es[i].0 == k));
        } else {
            assert(es2[j] == es[j]);
            assert(!(es[j].0 == k));
        }
    }
    let m1 = entries_map(es2);
    let m2 = entries_map(es).insert(k, v);
    assert forall|x: Seq<char>| m1.contains_key(x) <==> m2.contains_key(x) by {
        if m2.contains_key(x) && x != k {
            let i = choose|i: int| 0 <= i < es.len() && es[i].0 == x;
            assert(es2[i] == es[i]);
        }
        if m1.contains_key(x) && x != k {
            let i = choose|i: int| 0 <= i < es2.len() && es2[i].0 == x;
            assert(i < es.len());
            assert(es2[i] == es[i]);
        }
        if x == k {
            assert(es2[es.len() as int].0 == k);
        }
    }
    assert forall|x: Seq<char>| #[trigger] m1.contains_key(x) implies m1[x] == m2[x] by {
        if x == k {
            lemma_map_at(es2, es.len() as int);
        } else {
            let i = choose|i: int| 0 <= i < es2.len() && es2[i].0 == x;
            assert(i < es.len());
            assert(es2[i] == es[i]);
            lemma_map_at(es2, i);
            lemma_map_at(es, i);
        }
    }
    assert(m1 =~= m2);
}

proof fn lemma_map_remove(es: Seq<(Seq<char>, Option<SUniverse>)>, i: int)
    requires
        keys_unique(es),
        0 <= i < es.len(),
    ensures
        keys_unique(es.remove(i)),
        entries_map(es.remove(i)) == entries_map(es).remove(es[i].0),
        !entries_map(es.remove(i)).contains_key(es[i].0),
{
    let es2 = es.remove(i);
    let k = es[i].0;
    assert forall|a: int| 0 <= a < es2.len() implies #[trigger] es2[a] == es[if a < i {
        a
    } else {
        a + 1
    }] by {}
    assert forall|a: int, b: int|
        0 <= a < es2.len() && 0 <= b < es2.len() && a != b implies (#[trigger] es2[a]).0 != (
        #[trigger] es2[b]).0 by {
        let sa = if a < i { a } else { a + 1 };
        let sb = if b < i { b } else { b + 1 };
        assert(es2[a] == es[sa]);
        assert(es2[b] == es[sb]);
    }
    let m1 = entries_map(es2);
    let m2 = entries_map(es).remove(k);
    assert forall|x: Seq<char>| m1.contains_key(x) <==> m2.contains_key(x) by {
        if m1.contains_key(x) {
            let a = choose|a: int| 0 <= a < es2.len() && es2[a].0 == x;
            let sa = if a < i { a } else { a + 1 };
            assert(es2[a] == es[sa]);
            assert(sa != i);
        }
        if m2.contains_key(x) {
            let a = choose|a: int| 0 <= a < es.len() && es[a].0 == x;
            assert(a != i);
            let ta = if a < i { a } else { a - 1 };
            assert(es2[ta] == es[a]);
        }
    }
    assert forall|x: Seq<char>| #[trigger] m1.contains_key(x) implies m1[x] == m2[x] by {
        let a = choose|a: int| 0 <= a < es2.len() && es2[a].0 == x;
        let sa = if a < i { a } else { a + 1 };
        assert(es2[a] == es[sa]);
        lemma_map_at(es2, a);
        lemma_map_at(es, sa);
    }
    assert(m1 =~= m2);
}

/// The names in scope while checking evidence: type variables, and term
/// variables with the proof that their type is well formed.
#[derive(Debug)]
pub struct ContextIndex(Vec<(String, Option<Proof<Universe>>)>);

impl View for ContextIndex {
    type V = IndexModel;

    closed spec fn view(&self) -> IndexModel {
        entries_map(entries_model(self.0@))
    }
}

/// Every name of `ns` is bound in `m`.
pub open spec fn names_in(m: IndexModel, ns: Seq<Seq<char>>) -> bool {
    forall|i: int| 0 <= i < ns.len() ==> m.contains_key(#[trigger] ns[i])
}

/// An index is well formed when each term variable is bound to the
/// judgement that its type is a type, built as `type_universe` builds it,
/// over names that the index binds.
pub open spec fn index_ok(m: IndexModel) -> bool {
    forall|k: Seq<char>|
        #[trigger] m.contains_key(k) && m[k] is Some ==> {
            &&& m[k].unwrap() == type_universe(m[k].unwrap().ty)
            &&& names_in(m, m[k].unwrap().context)
        }
}

impl ContextIndex {
    #[verifier::type_invariant]
    closed spec fn keys_distinct(self) -> bool {
        &&& keys_unique(entries_model(self.0@))
        &&& index_ok(entries_map(entries_model(self.0@)))
    }

    fn empty() -> (r: ContextIndex)
        ensures
            r@ == Map::<Seq<char>, Option<SUniverse>>::empty(),
    {
        let r = ContextIndex(Vec::new());
        assert(r@ =~= Map::<Seq<char>, Option<SUniverse>>::empty());
        r
    }

    fn position(&self, k: &String) -> (r: Option<usize>)
        ensures
            r matches Some(i) ==> i < self.0.len() && self.0@[i as int].0@ == k@,
            r is None ==> !self@.contains_key(k@),
    {
        let mut i: usize = 0;
        while i < self.0.len()
            invariant
                i <= self.0.len(),
                forall|m: int| 0 <= m < i ==> entries_model(self.0@)[m].0 != k@,
            decreases self.0.len() - i,
        {
            if name_eq(&self.0[i].0, k) {
                return Some(i);
            }
            i += 1;
        }
        None
    }

    /// What `k` is bound to, if it is bound.
    fn lookup(&self, k: &String) -> (r: Option<&Option<Proof<Universe>>>)
        ensures
            r is Some <==> self@.contains_key(k@),
            r matches Some(v) ==> entry_value(*v) == self@[k@],
    {
        proof {
            use_type_invariant(self);
        }
        match self.position(k) {
            Some(i) => {
                proof {
                    lemma_map_at(entries_model(self.0@), i as int);
                }
                Some(&self.0[i].1)
            },
            None => None,
        }
    }

    /// Binds `k` to `v`, giving back what `k` was bound to before.
    fn insert(&mut self, k: String, v: Option<Proof<Universe>>) -> (r: Option<
        Option<Proof<Universe>>,
    >)
        requires
            index_ok(old(self)@.insert(k@, entry_value(v))),
        ensures
            final(self)@ == old(self)@.insert(k@, entry_value(v)),
            r is Some <==> old(self)@.contains_key(k@),
            r matches Some(o) ==> entry_value(o) == old(self)@[k@],
    {
        proof {
            use_type_invariant(&*self);
        }
        let ghost es0 = entries_model(self.0@);
        match self.position(&k) {
            Some(i) => {
                proof {
                    lemma_map_at(es0, i as int);
                    lemma_map_remove(es0, i as int);
                    assert(entries_model(self.0@.remove(i as int)) =~= es0.remove(i as int));
                    lemma_map_push(es0.remove(i as int), k@, entry_value(v));
                    assert(entries_model(self.0@.remove(i as int).push((k, v))) =~= es0.remove(
                        i as int,
                    ).push((k@, entry_value(v))));
                }
                let mut es: Vec<(String, Option<Proof<Universe>>)> = Vec::new();
                std::mem::swap(&mut es, &mut self.0);
                let (_, o) = es.remove(i);
                es.push((k, v));
                proof {
                    assert(entries_map(entries_model(es@)) =~= old(self)@.insert(k@, entry_value(v)));
                }
                self.0 = es;
                proof {
                    assert(self@ =~= old(self)@.insert(k@, entry_value(v)));
                }
                Some(o)
            },
            None => {
                proof {
                    lemma_map_push(es0, k@, entry_value(v));
                    assert(entries_model(self.0@.push((k, v))) =~= es0.push((k@, entry_value(v))));
                }
                let mut es: Vec<(String, Option<Proof<Universe>>)> = Vec::new();
                std::mem::swap(&mut es, &mut self.0);
                es.push((k, v));
                self.0 = es;
                None
            },
        }
    }

    /// Unbinds `k`.
    fn remove(&mut self, k: &String)
        requires
            index_ok(old(self)@.remove(k@)),
        ensures
            final(self)@ == old(self)@.remove(k@),
    {
        proof {
            use_type_invariant(&*self);
        }
        let ghost es0 = entries_model(self.0@);
        match self.position(k) {
            Some(i) => {
                proof {
                    lemma_map_remove(es0, i as int);
                    assert(entries_model(self.0@.remove(i as int)) =~= es0.remove(i as int));
                }
                let mut es: Vec<(String, Option<Proof<Universe>>)> = Vec::new();
                std::mem::swap(&mut es, &mut self.0);
                let _ = es.remove(i);
                self.0 = es;
            },
            None => {
                assert(old(self)@.remove(k@) =~= old(self)@);
            },
        }
    }

    /// Whether every name of `cx` is bound.
    fn consistent(&self, cx: &Vec<String>) -> (r: bool)
        ensures
            r == names_in(self@, names_model(cx@)),
    {
        let mut i: usize = 0;
        while i < cx.len()
            invariant
                i <= cx.len(),
                forall|k: int| 0 <= k < i ==> self@.contains_key(names_model(cx@)[k]),
            decreases cx.len() - i,
        {
            if self.lookup(&cx[i]).is_none() {
                assert(!self@.contains_key(names_model(cx@)[i as int]));
                return false;
            }
            i += 1;
        }
        true
    }

    /// The proof that `ty` is a type, when its free variables are all bound.
    fn verify_ty(&self, ty: &Type) -> (r: Result<Proof<Universe>, Error>)
        ensures
            r is Ok <==> names_in(self@, type_universe(ty@).context),
            r matches Ok(p) ==> p@ == type_universe(ty@),
    {
        let univ = verify_universe(ty);
        if !self.consistent(&univ.get().context) {
            return Err(Error(()));
        }
        Ok(univ)
    }
}

/// A derivation was refused.
#[derive(Debug, Clone, Copy, PartialEq, Eq)]
pub struct Error(());

impl From<IncompatibleStep> for Error {
    fn from(e: IncompatibleStep) -> (r: Self) {
        Error(())
    }
}

impl vstd::std_specs::convert::FromSpecImpl<IncompatibleStep> for Error {
    open spec fn obeys_from_spec() -> bool {
        true
    }

    closed spec fn from_spec(v: IncompatibleStep) -> Self {
        Error(())
    }
}

/// One binding added to an index under construction: a type variable is
/// bound to nothing, a term variable to the proof that its type is well
/// formed, provided the type's free variables are already bound.
pub open spec fn index_step(m: IndexModel, b: (Seq<char>, SBound)) -> Option<IndexModel> {
    match b.1 {
        SBound::TypeVar => Some(m.insert(b.0, None)),
        SBound::Var(t) => {
            let u = type_universe(t);
            if names_in(m, u.context) {
                Some(m.insert(b.0, Some(u)))
            } else {
                None
            }
        },
    }
}

/// The index built from a list of bindings, in order; later bindings of a
/// name replace earlier ones.
pub open spec fn index_of(bs: Seq<(Seq<char>, SBound)>) -> Option<IndexModel>
    decreases bs.len(),
{
    if bs.len() == 0 {
        Some(Map::empty())
    } else {
        match index_of(bs.drop_last()) {
            Some(m) => index_step(m, bs.last()),
            None => None,
        }
    }
}

/// What a binding needs bound before it: the variables of a term
/// variable's type.
pub open spec fn needs(b: SBound) -> Seq<Seq<char>> {
    match b {
        SBound::Var(t) => type_universe(t).context,
        SBound::TypeVar => Seq::empty(),
    }
}

/// Every binding of `cx` comes after bindings of the names that it needs.
pub open spec fn scoped(cx: Seq<(Seq<char>, SBound)>) -> bool {
    forall|k: int, n: Seq<char>|
        0 <= k < cx.len() && #[trigger] needs(cx[k].1).contains(n) ==> exists|i: int|
            0 <= i < k && cx[i].0 == n
}

/// Every type variable that a term binding of `cx` mentions is bound in
/// `cx` as a type variable.
pub open spec fn types_bound(cx: Seq<(Seq<char>, SBound)>) -> bool {
    forall|k: int, a: Seq<char>|
        0 <= k < cx.len() && #[trigger] bound_mentions(cx[k].1, a) ==> cx.contains(
            (a, SBound::TypeVar),
        )
}

/// Every name that `cx` binds is bound in `m`, a term variable to the
/// judgement that its type is a type.
pub open spec fn bound_in(cx: Seq<(Seq<char>, SBound)>, m: IndexModel) -> bool {
    forall|x: (Seq<char>, SBound)| #[trigger]
        cx.contains(x) ==> m.contains_key(x.0) && match x.1 {
            SBound::Var(t) => m[x.0] == Some(type_universe(t)),
            SBound::TypeVar => true,
        }
}

proof fn lemma_scoped_push(c: Seq<(Seq<char>, SBound)>, x: (Seq<char>, SBound))
    ensures
        scoped(c.push(x)) <==> (scoped(c) && forall|n: Seq<char>| #[trigger]
            needs(x.1).contains(n) ==> binding_names(c).contains(n)),
{
    let c2 = c.push(x);
    assert(c2[c.len() as int] == x);
    if scoped(c2) {
        assert forall|k: int, n: Seq<char>|
            0 <= k < c.len() && #[trigger] needs(c[k].1).contains(n) implies exists|i: int|
            0 <= i < k && c[i].0 == n by {
            assert(c2[k] == c[k]);
            let i = choose|i: int| 0 <= i < k && c2[i].0 == n;
            assert(c[i] == c2[i]);
        }
        assert forall|n: Seq<char>| #[trigger] needs(x.1).contains(n) implies binding_names(
            c,
        ).contains(n) by {
            assert(needs(c2[c.len() as int].1).contains(n));
            let i = choose|i: int| 0 <= i < c.len() && c2[i].0 == n;
            assert(binding_names(c)[i] == n);
        }
    }
    if scoped(c) && forall|n: Seq<char>| #[trigger]
        needs(x.1).contains(n) ==> binding_names(c).contains(n) {
        assert forall|k: int, n: Seq<char>|
            0 <= k < c2.len() && #[trigger] needs(c2[k].1).contains(n) implies exists|i: int|
            0 <= i < k && c2[i].0 == n by {
            if k < c.len() {
                assert(c2[k] == c[k]);
                let i = choose|i: int| 0 <= i < k && c[i].0 == n;
                assert(c[i] == c2[i]);
            } else {
                assert(binding_names(c).contains(n));
                let i = choose|i: int| 0 <= i < c.len() && binding_names(c)[i] == n;
                assert(c2[i] == c[i]);
            }
        }
    }
}

proof fn lemma_scoped_concat(c1: Seq<(Seq<char>, SBound)>, c2: Seq<(Seq<char>, SBound)>)
    requires
        scoped(c1),
        scoped(c2),
    ensures
        scoped(c1 + c2),
{
    let c = c1 + c2;
    let l = c1.len();
    assert forall|k: int, n: Seq<char>|
        0 <= k < c.len() && #[trigger] needs(c[k].1).contains(n) implies exists|i: int|
        0 <= i < k && c[i].0 == n by {
        if k < l {
            assert(c[k] == c1[k]);
            let i = choose|i: int| 0 <= i < k && c1[i].0 == n;
            assert(c[i] == c1[i]);
        } else {
            assert(c[k] == c2[k - l]);
            let i = choose|i: int| 0 <= i < k - l && c2[i].0 == n;
            assert(c[l + i] == c2[i]);
        }
    }
}

proof fn lemma_names_dedupe(s: Seq<(Seq<char>, SBound)>, n: Seq<char>)
    requires
        binding_names(s).contains(n),
    ensures
        binding_names(dedupe_bindings(s)).contains(n),
{
    let k = choose|k: int| 0 <= k < s.len() && binding_names(s)[k] == n;
    lemma_dedupe_first(s, k);
    let j = choose|j: int| 0 <= j <= k && s[j].0 == s[k].0 && dedupe_bindings(s).contains(s[j]);
    let d = dedupe_bindings(s);
    let q = choose|q: int| 0 <= q < d.len() && d[q] == s[j];
    assert(binding_names(d)[q] == n);
}

proof fn lemma_scoped_dedupe(s: Seq<(Seq<char>, SBound)>)
    requires
        scoped(s),
    ensures
        scoped(dedupe_bindings(s)),
    decreases s.len(),
{
    if s.len() > 0 {
        let s0 = s.drop_last();
        let x = s.last();
        assert(s0.push(x) =~= s);
        lemma_scoped_push(s0, x);
        lemma_scoped_dedupe(s0);
        let d0 = dedupe_bindings(s0);
        if !binding_names(d0).contains(x.0) {
            assert forall|n: Seq<char>| #[trigger] needs(x.1).contains(n) implies binding_names(
                d0,
            ).contains(n) by {
                lemma_names_dedupe(s0, n);
            }
            lemma_scoped_push(d0, x);
        }
    }
}

proof fn lemma_index_ok_insert(m: IndexModel, k: Seq<char>, v: Option<SUniverse>)
    requires
        index_ok(m),
        v matches Some(u) ==> u == type_universe(u.ty) && names_in(m, u.context),
    ensures
        index_ok(m.insert(k, v)),
{
    let m2 = m.insert(k, v);
    assert forall|q: Seq<char>| #[trigger] m2.contains_key(q) && m2[q] is Some implies {
        &&& m2[q].unwrap() == type_universe(m2[q].unwrap().ty)
        &&& names_in(m2, m2[q].unwrap().context)
    } by {
        let c = m2[q].unwrap().context;
        if q != k {
            assert(m.contains_key(q));
        }
        assert forall|i: int| 0 <= i < c.len() implies m2.contains_key(#[trigger] c[i]) by {
            if q != k {
                assert(m.contains_key(q));
            }
            assert(m.contains_key(c[i]));
        }
    }
}

/// The index of a list of bindings exists exactly when the list is scoped;
/// it binds the list's names, and, where they are distinct, each as the
/// list binds it.
pub proof fn lemma_index_of(c: Seq<(Seq<char>, SBound)>)
    ensures
        index_of(c) is Some <==> scoped(c),
        index_of(c) matches Some(m) ==> {
            &&& index_ok(m)
            &&& forall|n: Seq<char>| m.contains_key(n) <==> #[trigger] binding_names(c).contains(n)
            &&& names_unique(binding_names(c)) ==> bound_in(c, m)
        },
    decreases c.len(),
{
    if c.len() == 0 {
        assert(index_of(c) == Some(Map::<Seq<char>, Option<SUniverse>>::empty()));
        assert(binding_names(c) =~= Seq::<Seq<char>>::empty());
    } else {
        let c0 = c.drop_last();
        let x = c.last();
        assert(c0.push(x) =~= c);
        lemma_index_of(c0);
        lemma_scoped_push(c0, x);
        assert(binding_names(c) =~= binding_names(c0).push(x.0));
        if let Some(m) = index_of(c0) {
            let names_ok = forall|n: Seq<char>| #[trigger]
                needs(x.1).contains(n) ==> binding_names(c0).contains(n);
            match x.1 {
                SBound::Var(t) => {
                    let u = type_universe(t);
                    lemma_type_universe_type(t);
                    if names_ok {
                        assert forall|i: int| 0 <= i < u.context.len() implies m.contains_key(
                            #[trigger] u.context[i],
                        ) by {
                            assert(needs(x.1).contains(u.context[i]));
                        }
                    }
                    if names_in(m, u.context) {
                        assert forall|n: Seq<char>| #[trigger]
                            needs(x.1).contains(n) implies binding_names(c0).contains(n) by {
                            let i = choose|i: int| 0 <= i < u.context.len() && u.context[i] == n;
                            assert(m.contains_key(u.context[i]));
                        }
                    }
                },
                SBound::TypeVar => {},
            }
            if let Some(m2) = index_of(c) {
                let v = match x.1 {
                    SBound::Var(t) => Some(type_universe(t)),
                    SBound::TypeVar => None,
                };
                assert(m2 == m.insert(x.0, v));
                lemma_index_ok_insert(m, x.0, v);
                assert forall|n: Seq<char>| m2.contains_key(n) <==> #[trigger] binding_names(
                    c,
                ).contains(n) by {
                    if binding_names(c0).contains(n) {
                        let i = choose|i: int| 0 <= i < binding_names(c0).len() && binding_names(c0)[i] == n;
                        assert(binding_names(c)[i] == n);
                    }
                    if n == x.0 {
                        assert(binding_names(c)[c.len() - 1] == n);
                    }
                    if binding_names(c).contains(n) && n != x.0 {
                        let i = choose|i: int| 0 <= i < binding_names(c).len() && binding_names(c)[i] == n;
                        assert(binding_names(c0)[i] == n);
                    }
                }
                if names_unique(binding_names(c)) {
                    lemma_unique_drop_last(c);
                    assert forall|y: (Seq<char>, SBound)| #[trigger] c.contains(y) implies m2.contains_key(y.0)
                        && match y.1 {
                        SBound::Var(t) => m2[y.0] == Some(type_universe(t)),
                        SBound::TypeVar => true,
                    } by {
                        let i = choose|i: int| 0 <= i < c.len() && c[i] == y;
                        if i < c.len() - 1 {
                            assert(c0[i] == y);
                            assert(c0.contains(y));
                            assert(binding_names(c)[i] != binding_names(c)[c.len() - 1]);
                        }
                    }
                }
            }
        }
    }
}

proof fn lemma_index_of_none(bs: Seq<(Seq<char>, SBound)>, k: int)
    requires
        0 <= k <= bs.len(),
        index_of(bs.take(k)) is None,
    ensures
        index_of(bs) is None,
    decreases bs.len() - k,
{
    if k == bs.len() {
        assert(bs.take(k) =~= bs);
    } else {
        assert(bs.take(k + 1).drop_last() =~= bs.take(k));
        lemma_index_of_none(bs, k + 1);
    }
}

impl ContextIndex {
    /// The index of a list of bindings; refused when a term variable's type
    /// mentions a name not bound before it.
    pub fn new(binds: Vec<(String, Bound)>) -> (r: Result<ContextIndex, Error>)
        ensures
            r is Ok <==> index_of(context_model(binds@)) is Some,
            r is Ok <==> scoped(context_model(binds@)),
            r matches Ok(ci) ==> ci@ == index_of(context_model(binds@)).unwrap(),
    {
        proof {
            lemma_index_of(context_model(binds@));
        }
        let ghost bs = context_model(binds@);
        let mut this = ContextIndex::empty();
        let mut i: usize = 0;
        while i < binds.len()
            invariant
                i <= binds.len(),
                bs == context_model(binds@),
                index_of(bs.take(i as int)) == Some(this@),
            decreases binds.len() - i,
        {
            proof {
                assert(bs.take(i + 1).drop_last() =~= bs.take(i as int));
                assert(bs.take(i + 1).last() == bs[i as int]);
            }
            let v = match &binds[i].1 {
                Bound::TypeVar => None,
                Bound::Var(ty) => match this.verify_ty(ty) {
                    Ok(u) => Some(u),
                    Err(e) => {
                        proof {
                            lemma_index_of_none(bs, i + 1);
                            lemma_index_of(bs);
                        }
                        return Err(e);
                    },
                },
            };
            proof {
                lemma_index_of(bs.take(i + 1));
            }
            this.insert(name_copy(&binds[i].0), v);
            i += 1;
        }
        proof {
            assert(bs.take(binds.len() as int) =~= bs);
        }
        Ok(this)
    }
}

/// The bindings of `cx` without those whose name was bound earlier.
pub open spec fn dedupe_bindings(cx: Seq<(Seq<char>, SBound)>) -> Seq<(Seq<char>, SBound)>
    decreases cx.len(),
{
    if cx.len() == 0 {
        cx
    } else {
        let m = dedupe_bindings(cx.drop_last());
        if binding_names(m).contains(cx.last().0) {
            m
        } else {
            m.push(cx.last())
        }
    }
}

/// Whether a context binds the name `s`.
pub open spec fn binds_name(cx: Seq<(Seq<char>, SBound)>, s: Seq<char>) -> bool {
    binding_names(cx).contains(s)
}

/// Appends to `out` the bindings of `src` whose names `out` does not bind yet.
fn merge_into(out: &mut Context, src: &Vec<(String, Bound)>, Ghost(base): Ghost<
    Seq<(Seq<char>, SBound)>,
>)
    requires
        context_model(old(out)@) == dedupe_bindings(base),
    ensures
        context_model(final(out)@) == dedupe_bindings(base + context_model(src@)),
{
    let ghost sm = context_model(src@);
    let mut i: usize = 0;
    while i < src.len()
        invariant
            i <= src.len(),
            sm == context_model(src@),
            context_model(out@) == dedupe_bindings(base + sm.take(i as int)),
        decreases src.len() - i,
    {
        proof {
            assert((base + sm.take(i + 1)).drop_last() =~= base + sm.take(i as int));
            assert((base + sm.take(i + 1)).last() == sm[i as int]);
        }
        let present = find_binding(out, &src[i].0).is_some();
        if !present {
            let s = name_copy(&src[i].0);
            let b = src[i].1.copy();
            proof {
                lemma_context_push(out@, s, b);
                let om = context_model(out@);
                if binding_names(om).contains(sm[i as int].0) {
                    let k = choose|k: int| 0 <= k < om.len() && binding_names(om)[k] == sm[i as int].0;
                    assert(om[k].0 == sm[i as int].0);
                }
            }
            out.push((s, b));
        } else {
            proof {
                let om = context_model(out@);
                let k = choose|k: int| 0 <= k < om.len() && om[k].0 == src@[i as int].0@;
                assert(binding_names(om)[k] == sm[i as int].0);
            }
        }
        i += 1;
    }
    proof {
        assert(sm.take(src.len() as int) =~= sm);
    }
}

/// Appends to `out` the names of `src`, bound as type variables, that `out`
/// does not bind yet.
fn merge_type_vars_into(out: &mut Context, src: &Vec<String>, Ghost(base): Ghost<
    Seq<(Seq<char>, SBound)>,
>)
    requires
        context_model(old(out)@) == dedupe_bindings(base),
    ensures
        context_model(final(out)@) == dedupe_bindings(
            base + type_var_bindings(names_model(src@)),
        ),
{
    let ghost sm = type_var_bindings(names_model(src@));
    let mut i: usize = 0;
    while i < src.len()
        invariant
            i <= src.len(),
            sm == type_var_bindings(names_model(src@)),
            context_model(out@) == dedupe_bindings(base + sm.take(i as int)),
        decreases src.len() - i,
    {
        proof {
            assert((base + sm.take(i + 1)).drop_last() =~= base + sm.take(i as int));
            assert((base + sm.take(i + 1)).last() == sm[i as int]);
        }
        let present = find_binding(out, &src[i]).is_some();
        if !present {
            let s = name_copy(&src[i]);
            proof {
                lemma_context_push(out@, s, Bound::TypeVar);
                let om = context_model(out@);
                if binding_names(om).contains(sm[i as int].0) {
                    let k = choose|k: int| 0 <= k < om.len() && binding_names(om)[k] == sm[i as int].0;
                    assert(om[k].0 == sm[i as int].0);
                }
            }
            out.push((s, Bound::TypeVar));
        } else {
            proof {
                let om = context_model(out@);
                let k = choose|k: int| 0 <= k < om.len() && om[k].0 == src@[i as int]@;
                assert(binding_names(om)[k] == sm[i as int].0);
            }
        }
        i += 1;
    }
    proof {
        assert(sm.take(src.len() as int) =~= sm);
    }
}

/// The kernel's application rule after both premises are moved into the
/// union of their contexts.
pub open spec fn app_spec(jf: STyped, ja: STyped) -> Option<STyped> {
    let cx = dedupe_bindings(jf.context + ja.context);
    match (rule_structural(jf, cx), rule_structural(ja, cx)) {
        (Some(f2), Some(a2)) => rule_app(f2, a2),
        _ => None,
    }
}

/// The kernel's type application rule after the function is moved into a
/// context that also binds the type's variables.
pub open spec fn poly_app_spec(jf: STyped, u: SUniverse) -> Option<STyped> {
    let cx = dedupe_bindings(jf.context + type_var_bindings(u.context));
    match rule_structural(jf, cx) {
        Some(f2) => rule_poly_app(f2, u),
        None => None,
    }
}

/// [`Proof::app`] with automatic merging of the contexts of the function and argument.
pub fn app(f: Proof<Typed>, a: Proof<Typed>) -> (r: Result<Proof<Typed>, Error>)
    ensures
        r is Ok <==> app_spec(f@, a@) is Some,
        r matches Ok(p) ==> p@ == app_spec(f@, a@).unwrap(),
{
    let mut cx: Context = Vec::new();
    proof {
        assert(context_model(cx@) =~= dedupe_bindings(Seq::empty()));
    }
    merge_into(&mut cx, &f.get().context, Ghost(Seq::empty()));
    proof {
        assert(Seq::<(Seq<char>, SBound)>::empty() + f@.context =~= f@.context);
    }
    merge_into(&mut cx, &a.get().context, Ghost(f@.context));
    let cx2 = context_copy(&cx);
    let f2 = match f.structural(cx) {
        Ok(p) => p,
        Err(_) => return Err(Error(())),
    };
    let a2 = match a.structural(cx2) {
        Ok(p) => p,
        Err(_) => return Err(Error(())),
    };
    match f2.app(a2) {
        Ok(p) => Ok(p),
        Err(_) => Err(Error(())),
    }
}

/// [`Proof::poly_app`] with automatic merging of the contexts of the function and argument.
pub fn poly_app(f: Proof<Typed>, a: Proof<Universe>) -> (r: Result<Proof<Typed>, Error>)
    ensures
        r is Ok <==> poly_app_spec(f@, a@) is Some,
        r matches Ok(p) ==> p@ == poly_app_spec(f@, a@).unwrap(),
{
    let mut cx: Context = Vec::new();
    proof {
        assert(context_model(cx@) =~= dedupe_bindings(Seq::empty()));
    }
    merge_into(&mut cx, &f.get().context, Ghost(Seq::empty()));
    proof {
        assert(Seq::<(Seq<char>, SBound)>::empty() + f@.context =~= f@.context);
    }
    merge_type_vars_into(&mut cx, &a.get().context, Ghost(f@.context));
    let f2 = match f.structural(cx) {
        Ok(p) => p,
        Err(_) => return Err(Error(())),
    };
    match f2.poly_app(a) {
        Ok(p) => Ok(p),
        Err(_) => Err(Error(())),
    }
}

/// Some position at which a context binds `s`.
pub open spec fn binding_position(cx: Seq<(Seq<char>, SBound)>, s: Seq<char>) -> int {
    choose|i: int| 0 <= i < cx.len() && cx[i].0 == s
}

/// The context with the binding of `param` swapped with the last binding,
/// or `(param, b)` added at the end when `param` is not bound. Refused when
/// `param` is bound to something other than `b`.
pub open spec fn exchange_to_end(cx: Seq<(Seq<char>, SBound)>, param: Seq<char>, b: SBound) -> Option<
    Seq<(Seq<char>, SBound)>,
> {
    if binds_name(cx, param) {
        let i = binding_position(cx, param);
        if cx[i].1 != b {
            None
        } else {
            Some(cx.update(i, cx.last()).update(cx.len() - 1, cx[i]))
        }
    } else {
        Some(cx.push((param, b)))
    }
}

/// The kernel's abstraction rule after the parameter is swapped to the end
/// of the context, or added there.
pub open spec fn abs_spec(j: STyped, param: Seq<char>, ty: SType) -> Option<STyped> {
    match exchange_to_end(j.context, param, SBound::Var(ty)) {
        Some(cx) => match rule_structural(j, cx) {
            Some(j2) => rule_abs(j2),
            None => None,
        },
        None => None,
    }
}

/// The kernel's type abstraction rule after the type parameter is moved to
/// the end of the context, or added there.
pub open spec fn poly_abs_spec(j: STyped, param: Seq<char>) -> Option<STyped> {
    match exchange_to_end(j.context, param, SBound::TypeVar) {
        Some(cx) => match rule_structural(j, cx) {
            Some(j2) => rule_poly_abs(j2),
            None => None,
        },
        None => None,
    }
}

/// The context of `body` with `param` swapped to the end, as `exchange_to_end` says.
fn exchange(body: &Proof<Typed>, param: &String, b: &Bound) -> (r: Option<Context>)
    ensures
        r is Some <==> exchange_to_end(body@.context, param@, b@) is Some,
        r matches Some(c) ==> context_model(c@) == exchange_to_end(
            body@.context,
            param@,
            b@,
        ).unwrap(),
{
    let ghost cx0 = body@.context;
    let j = body.get();
    proof {
        lemma_derivable_names_unique(body@);
    }
    let mut cx = context_copy(&j.context);
    match find_binding(&cx, param) {
        Some(i) => {
            proof {
                assert(binding_names(cx0)[i as int] == param@);
                let k = binding_position(cx0, param@);
                assert(binding_names(cx0)[k] == param@);
                assert(k == i);
            }
            if !cx[i].1.equals(b) {
                return None;
            }
            let ghost c0 = context_model(cx@);
            let n = cx.len() - 1;
            if i < n {
                let moved = (name_copy(&cx[i].0), cx[i].1.copy());
                let last = cx.pop().unwrap();
                proof {
                    assert(context_model(cx@.update(i as int, last)) =~= c0.drop_last().update(
                        i as int,
                        c0.last(),
                    ));
                }
                cx.set(i, last);
                proof {
                    lemma_context_push(cx@, moved.0, moved.1);
                    assert(context_model(cx@).push((moved.0@, moved.1@)) =~= c0.update(
                        i as int,
                        c0.last(),
                    ).update(n as int, c0[i as int]));
                }
                cx.push(moved);
            } else {
                assert(c0.update(i as int, c0.last()).update(n as int, c0[i as int]) =~= c0);
            }
            Some(cx)
        },
        None => {
            let s = name_copy(param);
            let b2 = b.copy();
            proof {
                lemma_context_push(cx@, s, b2);
                assert(!binds_name(cx0, param@));
            }
            cx.push((s, b2));
            Some(cx)
        },
    }
}

/// [`Proof::abs`] with automatic exchange of the variable binding anywhere in the context.
pub fn abs(body: Proof<Typed>, param: String, ty: Type) -> (r: Result<Proof<Typed>, Error>)
    ensures
        r is Ok <==> abs_spec(body@, param@, ty@) is Some,
        r matches Ok(p) ==> p@ == abs_spec(body@, param@, ty@).unwrap(),
{
    let b = Bound::Var(ty);
    match exchange(&body, &param, &b) {
        None => Err(Error(())),
        Some(cx) => match body.structural(cx) {
            Ok(p) => match p.abs() {
                Ok(q) => Ok(q),
                Err(_) => Err(Error(())),
            },
            Err(_) => Err(Error(())),
        },
    }
}

/// [`Proof::poly_abs`] with automatic exchange of the type variable binding
/// anywhere in the context.
pub fn poly_abs(body: Proof<Typed>, param: String) -> (r: Result<Proof<Typed>, Error>)
    ensures
        r is Ok <==> poly_abs_spec(body@, param@) is Some,
        r matches Ok(p) ==> p@ == poly_abs_spec(body@, param@).unwrap(),
{
    let b = Bound::TypeVar;
    match exchange(&body, &param, &b) {
        None => Err(Error(())),
        Some(cx) => match body.structural(cx) {
            Ok(p) => match p.poly_abs() {
                Ok(q) => Ok(q),
                Err(_) => Err(Error(())),
            },
            Err(_) => Err(Error(())),
        },
    }
}

/// What checking evidence in an index gives: the proof of its typing, if the
/// evidence is valid there.
pub open spec fn verify_spec(ev: SEv, m: IndexModel) -> Option<STyped>
    decreases ev,
{
    match ev {
        SEv::Var(n) => if m.contains_key(n) && m[n] is Some {
            rule_var(n, m[n].unwrap())
        } else {
            None
        },
        SEv::App(f, a) => match verify_spec(*f, m) {
            Some(jf) => match verify_spec(*a, m) {
                Some(ja) => app_spec(jf, ja),
                None => None,
            },
            None => None,
        },
        SEv::PolyApp(f, ty) => match verify_spec(*f, m) {
            Some(jf) => {
                let u = type_universe(ty);
                if names_in(m, u.context) {
                    poly_app_spec(jf, u)
                } else {
                    None
                }
            },
            None => None,
        },
        SEv::PolyAbs(p, b) => match verify_spec(*b, m.insert(p, None)) {
            Some(jb) => poly_abs_spec(jb, p),
            None => None,
        },
        SEv::Abs(s, ty, b) => {
            let u = type_universe(ty);
            if names_in(m, u.context) {
                match verify_spec(*b, m.insert(s, Some(u))) {
                    Some(jb) => abs_spec(jb, s, ty),
                    None => None,
                }
            } else {
                None
            }
        },
    }
}

/// Verify a derivation against a context, producing a proof of its typing
/// within a subset of that context: every name that the proof's context
/// binds is bound in the index, a term variable at the type that the index
/// gives it.
///
/// This function is logically pure: its result is a function of the
/// evidence and of the index alone, and the index is unchanged when it
/// returns.
#[verifier::rlimit(50)]
pub fn verify(ev: &TypedEv, cx: &mut ContextIndex) -> (r: Result<Proof<Typed>, Error>)
    ensures
        final(cx)@ == old(cx)@,
        r is Ok <==> verify_spec(ev@, old(cx)@) is Some,
        r matches Ok(p) ==> p@ == verify_spec(ev@, old(cx)@).unwrap(),
        r matches Ok(p) ==> bound_in(p@.context, old(cx)@),
        r matches Ok(p) ==> types_bound(p@.context),
    decreases ev,
{
    proof {
        use_type_invariant(&*cx);
    }
    let ghost m0 = cx@;
    proof {
        lemma_verify_shape(ev@, m0);
    }
    match ev {
        TypedEv::Var(n) => match cx.lookup(n) {
            Some(v) => match v {
                Some(t) => {
                    let u = t.copy();
                    match Proof::var(name_copy(n), u) {
                        Ok(p) => {
                            Ok(p)
                        },
                        Err(_) => Err(Error(())),
                    }
                },
                None => Err(Error(())),
            },
            None => Err(Error(())),
        },
        TypedEv::App(f, a) => {
            let ft = match verify(f, cx) {
                Ok(p) => p,
                Err(e) => return Err(e),
            };
            let at = match verify(a, cx) {
                Ok(p) => p,
                Err(e) => return Err(e),
            };
            let r = app(ft, at);
            r
        },
        TypedEv::PolyApp(f, ty) => {
            let ft = match verify(f, cx) {
                Ok(p) => p,
                Err(e) => return Err(e),
            };
            let substituted_ty = match cx.verify_ty(ty) {
                Ok(u) => u,
                Err(e) => return Err(e),
            };
            poly_app(ft, substituted_ty)
        },
        TypedEv::PolyAbs(param, body) => {
            proof {
                lemma_index_ok_insert(m0, param@, None);
            }
            let old = cx.insert(name_copy(param), None);
            let bt = verify(body, cx);
            match old {
                Some(o) => {
                    proof {
                        assert(m0.insert(param@, None).insert(param@, entry_value(o)) =~= m0);
                    }
                    cx.insert(name_copy(param), o);
                    proof {
                        assert(cx@ =~= m0);
                    }
                },
                None => {
                    proof {
                        assert(cx@.remove(param@) =~= m0);
                    }
                    cx.remove(param);
                    proof {
                        assert(cx@ =~= m0);
                    }
                },
            }
            match bt {
                Ok(b) => poly_abs(b, name_copy(param)),
                Err(e) => Err(e),
            }
        },
        TypedEv::Abs(s, ty, b) => {
            let u = match cx.verify_ty(ty) {
                Ok(u) => u,
                Err(e) => return Err(e),
            };
            proof {
                lemma_type_universe_type(ty@);
                lemma_index_ok_insert(m0, s@, Some(u@));
            }
            let old = cx.insert(name_copy(s), Some(u));
            let bt = verify(b, cx);
            match old {
                Some(o) => {
                    proof {
                        assert(cx@.insert(s@, entry_value(o)) =~= m0);
                    }
                    cx.insert(name_copy(s), o);
                    proof {
                        assert(cx@ =~= m0);
                    }
                },
                None => {
                    proof {
                        assert(cx@.remove(s@) =~= m0);
                    }
                    cx.remove(s);
                    proof {
                        assert(cx@ =~= m0);
                    }
                },
            }
            match bt {
                Ok(p) => abs(p, name_copy(s), ty.copy()),
                Err(e) => Err(e),
            }
        },
    }
}

proof fn lemma_in_concat(c1: Seq<(Seq<char>, SBound)>, c2: Seq<(Seq<char>, SBound)>, x: (Seq<char>, SBound))
    requires
        (c1 + c2).contains(x),
    ensures
        c1.contains(x) || c2.contains(x),
{
    let k = choose|k: int| 0 <= k < (c1 + c2).len() && (c1 + c2)[k] == x;
    if k < c1.len() {
        assert(c1[k] == x);
    } else {
        assert(c2[k - c1.len()] == x);
    }
}

/// A typing judgement that checking may give in the index `m`: derivable,
/// with a context that binds the type variables that its term variables'
/// types mention, and binds every name as `m` does.
pub open spec fn shape_ok(j: STyped, m: IndexModel) -> bool {
    &&& derivable(j)
    &&& types_bound(j.context)
    &&& bound_in(j.context, m)
}

proof fn lemma_shape_var(n: Seq<char>, m: IndexModel)
    requires
        index_ok(m),
    ensures
        verify_spec(SEv::Var(n), m) matches Some(j) ==> shape_ok(j, m),
{
    let ev = SEv::Var(n);
    if let Some(j) = verify_spec(ev, m) {
        let u = m[n].unwrap();
        lemma_type_universe_wf(u.ty);
        let d = crate::kernel::Derivation::Var(n, u);
        assert(crate::kernel::conclusion(d) == Some(j));
        let tv = type_var_bindings(u.context);
        let c = j.context;
        let x = (n, SBound::Var(u.ty));
        assert(c == tv.push(x));
        assert forall|k: int, a: Seq<char>|
            0 <= k < c.len() && #[trigger] bound_mentions(c[k].1, a) implies c.contains(
            (a, SBound::TypeVar),
        ) by {
            if k < c.len() - 1 {
                assert(c[k] == tv[k]);
            } else {
                assert(u.context.contains(a));
                let q = choose|q: int| 0 <= q < u.context.len() && u.context[q] == a;
                assert(c[q] == tv[q]);
            }
        }
        assert forall|y: (Seq<char>, SBound)| #[trigger] c.contains(y) implies m.contains_key(y.0)
            && match y.1 {
            SBound::Var(t) => m[y.0] == Some(type_universe(t)),
            SBound::TypeVar => true,
        } by {
            let k = choose|k: int| 0 <= k < c.len() && c[k] == y;
            if k < c.len() - 1 {
                assert(c[k] == tv[k]);
                assert(m.contains_key(u.context[k]));
            }
        }
    }
}

proof fn lemma_shape_app(f: SEv, a: SEv, m: IndexModel)
    requires
        index_ok(m),
        verify_spec(f, m) matches Some(jf) ==> shape_ok(jf, m),
        verify_spec(a, m) matches Some(ja) ==> shape_ok(ja, m),
    ensures
        verify_spec(SEv::App(Box::new(f), Box::new(a)), m) matches Some(j) ==> shape_ok(j, m),
{
    let ev = SEv::App(Box::new(f), Box::new(a));
    if let Some(j) = verify_spec(ev, m) {
        let jf = verify_spec(f, m).unwrap();
        let ja = verify_spec(a, m).unwrap();
        let s2 = jf.context + ja.context;
        let c = dedupe_bindings(s2);
        let f2 = rule_structural(jf, c).unwrap();
        let a2 = rule_structural(ja, c).unwrap();
        crate::kernel::lemma_derive_structural(jf, c);
        crate::kernel::lemma_derive_structural(ja, c);
        crate::kernel::lemma_derive_app(f2, a2);
        assert(j.context == c);
        assert forall|k: int, t: Seq<char>|
            0 <= k < c.len() && #[trigger] bound_mentions(c[k].1, t) implies c.contains(
            (t, SBound::TypeVar),
        ) by {
            assert(c.contains(c[k]));
            lemma_dedupe_sub(s2, c[k]);
            lemma_in_concat(jf.context, ja.context, c[k]);
            if jf.context.contains(c[k]) {
                let q = choose|q: int| 0 <= q < jf.context.len() && jf.context[q] == c[k];
                assert(bound_mentions(jf.context[q].1, t));
                let r = choose|r: int|
                    0 <= r < jf.context.len() && jf.context[r] == (t, SBound::TypeVar);
                assert(c.contains(jf.context[r]));
            } else {
                let q = choose|q: int| 0 <= q < ja.context.len() && ja.context[q] == c[k];
                assert(bound_mentions(ja.context[q].1, t));
                let r = choose|r: int|
                    0 <= r < ja.context.len() && ja.context[r] == (t, SBound::TypeVar);
                assert(c.contains(ja.context[r]));
            }
        }
        assert forall|y: (Seq<char>, SBound)| #[trigger] c.contains(y) implies m.contains_key(y.0)
            && match y.1 {
            SBound::Var(t) => m[y.0] == Some(type_universe(t)),
            SBound::TypeVar => true,
        } by {
            lemma_dedupe_sub(s2, y);
            lemma_in_concat(jf.context, ja.context, y);
        }
    }
}

proof fn lemma_shape_poly_app(f: SEv, ty: SType, m: IndexModel)
    requires
        index_ok(m),
        verify_spec(f, m) matches Some(jf) ==> shape_ok(jf, m),
    ensures
        verify_spec(SEv::PolyApp(Box::new(f), ty), m) matches Some(j) ==> shape_ok(j, m),
{
    let ev = SEv::PolyApp(Box::new(f), ty);
    if let Some(j) = verify_spec(ev, m) {
        let jf = verify_spec(f, m).unwrap();
        let u = type_universe(ty);
        lemma_type_universe_wf(ty);
        let tv = type_var_bindings(u.context);
        let s2 = jf.context + tv;
        let c = dedupe_bindings(s2);
        let f2 = rule_structural(jf, c).unwrap();
        crate::kernel::lemma_derive_structural(jf, c);
        crate::kernel::lemma_derive_poly_app(f2, u);
        assert(j.context == c);
        assert forall|k: int, t: Seq<char>|
            0 <= k < c.len() && #[trigger] bound_mentions(c[k].1, t) implies c.contains(
            (t, SBound::TypeVar),
        ) by {
            assert(c.contains(c[k]));
            lemma_dedupe_sub(s2, c[k]);
            lemma_in_concat(jf.context, tv, c[k]);
            if jf.context.contains(c[k]) {
                let q = choose|q: int| 0 <= q < jf.context.len() && jf.context[q] == c[k];
                assert(bound_mentions(jf.context[q].1, t));
                let r = choose|r: int|
                    0 <= r < jf.context.len() && jf.context[r] == (t, SBound::TypeVar);
                assert(c.contains(jf.context[r]));
            } else {
                let q = choose|q: int| 0 <= q < tv.len() && tv[q] == c[k];
            }
        }
        assert forall|y: (Seq<char>, SBound)| #[trigger] c.contains(y) implies m.contains_key(y.0)
            && match y.1 {
            SBound::Var(t) => m[y.0] == Some(type_universe(t)),
            SBound::TypeVar => true,
        } by {
            lemma_dedupe_sub(s2, y);
            lemma_in_concat(jf.context, tv, y);
            if tv.contains(y) {
                let q = choose|q: int| 0 <= q < tv.len() && tv[q] == y;
                assert(m.contains_key(u.context[q]));
            }
        }
    }
}

proof fn lemma_shape_poly_abs(p: Seq<char>, b: SEv, m: IndexModel)
    requires
        index_ok(m),
        verify_spec(b, m.insert(p, None)) matches Some(jb) ==> shape_ok(jb, m.insert(p, None)),
    ensures
        verify_spec(SEv::PolyAbs(p, Box::new(b)), m) matches Some(j) ==> shape_ok(j, m),
{
    let ev = SEv::PolyAbs(p, Box::new(b));
    let m1 = m.insert(p, None);
    if let Some(j) = verify_spec(ev, m) {
        let jb = verify_spec(b, m1).unwrap();
        let cb = jb.context;
        lemma_poly_abs_inference(jb, p);
        lemma_derivable_names_unique(jb);
        let cx2 = exchange_to_end(cb, p, SBound::TypeVar).unwrap();
        lemma_exchange(cb, p, SBound::TypeVar);
        let j2 = rule_structural(jb, cx2).unwrap();
        crate::kernel::lemma_derive_structural(jb, cx2);
        crate::kernel::lemma_derive_poly_abs(j2);
        let c = j.context;
        assert forall|k: int, t: Seq<char>|
            0 <= k < c.len() && #[trigger] bound_mentions(c[k].1, t) implies c.contains(
            (t, SBound::TypeVar),
        ) by {
            assert(c.contains(c[k]));
            let q = choose|q: int| 0 <= q < cb.len() && cb[q] == c[k];
            assert(bound_mentions(cb[q].1, t));
            assert(cb.contains((t, SBound::TypeVar)));
        }
        assert forall|y: (Seq<char>, SBound)| #[trigger] c.contains(y) implies m.contains_key(y.0)
            && match y.1 {
            SBound::Var(t) => m[y.0] == Some(type_universe(t)),
            SBound::TypeVar => true,
        } by {
            assert(cb.contains(y));
        }
    }
}

proof fn lemma_abs_context(jb: STyped, sn: Seq<char>, ty: SType)
    requires
        derivable(jb),
        types_bound(jb.context),
        abs_spec(jb, sn, ty) is Some,
    ensures
        ({
            let j = abs_spec(jb, sn, ty).unwrap();
            &&& derivable(j)
            &&& types_bound(j.context)
        }),
{
    let j = abs_spec(jb, sn, ty).unwrap();
    let cb = jb.context;
    lemma_abs_inference(jb, sn, ty);
    lemma_derivable_names_unique(jb);
    let bv = SBound::Var(ty);
    let cx = exchange_to_end(cb, sn, bv).unwrap();
    lemma_exchange(cb, sn, bv);
    let j2 = rule_structural(jb, cx).unwrap();
    crate::kernel::lemma_derive_structural(jb, cx);
    crate::kernel::lemma_derive_abs(j2);
    let c = j.context;
    assert forall|k: int, t: Seq<char>|
        0 <= k < c.len() && #[trigger] bound_mentions(c[k].1, t) implies c.contains(
        (t, SBound::TypeVar),
    ) by {
        assert(c.contains(c[k]));
        assert(cb.contains(c[k]) && c[k].0 != sn);
        let q = choose|q: int| 0 <= q < cb.len() && cb[q] == c[k];
        assert(bound_mentions(cb[q].1, t));
        assert(cb.contains((t, SBound::TypeVar)));
        if t == sn {
            let r = choose|r: int| 0 <= r < cb.len() && cb[r] == (t, SBound::TypeVar);
            assert(binds_otherwise(cb, sn, bv));
        }
    }
}

proof fn lemma_shape_abs(sn: Seq<char>, ty: SType, b: SEv, m: IndexModel)
    requires
        index_ok(m),
        names_in(m, type_universe(ty).context) ==> (verify_spec(b, m.insert(sn, Some(type_universe(ty)))) matches Some(jb) ==> shape_ok(jb, m.insert(sn, Some(type_universe(ty))))),
    ensures
        verify_spec(SEv::Abs(sn, ty, Box::new(b)), m) matches Some(j) ==> shape_ok(j, m),
{
    let ev = SEv::Abs(sn, ty, Box::new(b));
    let u = type_universe(ty);
    let m1 = m.insert(sn, Some(u));
    if let Some(j) = verify_spec(ev, m) {
        let jb = verify_spec(b, m1).unwrap();
        let cb = jb.context;
        lemma_abs_inference(jb, sn, ty);
        lemma_abs_context(jb, sn, ty);
        let c = j.context;
        assert forall|y: (Seq<char>, SBound)| #[trigger] c.contains(y) implies m.contains_key(y.0)
            && match y.1 {
            SBound::Var(t) => m[y.0] == Some(type_universe(t)),
            SBound::TypeVar => true,
        } by {
            assert(cb.contains(y) && y.0 != sn);
        }
    }
}

/// What checking gives, in a well-formed index, is a derivable judgement
/// whose context is scoped, binds the type variables that its term
/// variables' types mention, and binds every name as the index does.
pub proof fn lemma_verify_shape(ev: SEv, m: IndexModel)
    requires
        index_ok(m),
    ensures
        verify_spec(ev, m) matches Some(j) ==> shape_ok(j, m),
    decreases ev,
{
    match ev {
        SEv::Var(n) => lemma_shape_var(n, m),
        SEv::App(f, a) => {
            lemma_verify_shape(*f, m);
            lemma_verify_shape(*a, m);
            lemma_shape_app(*f, *a, m);
        },
        SEv::PolyApp(f, ty) => {
            lemma_verify_shape(*f, m);
            lemma_shape_poly_app(*f, ty, m);
        },
        SEv::PolyAbs(p, b) => {
            lemma_index_ok_insert(m, p, None);
            lemma_verify_shape(*b, m.insert(p, None));
            lemma_shape_poly_abs(p, *b, m);
        },
        SEv::Abs(sn, ty, b) => {
            let u = type_universe(ty);
            lemma_type_universe_type(ty);
            if names_in(m, u.context) {
                lemma_index_ok_insert(m, sn, Some(u));
                lemma_verify_shape(*b, m.insert(sn, Some(u)));
            }
            lemma_shape_abs(sn, ty, *b, m);
        },
    }
}

/// Every type variable of every annotation of `ev` is in `ns`, or is bound
/// around the annotation inside `ev`.
pub open spec fn annotations_bound(ev: SEv, ns: Set<Seq<char>>) -> bool
    decreases ev,
{
    match ev {
        SEv::Var(_) => true,
        SEv::App(f, a) => annotations_bound(*f, ns) && annotations_bound(*a, ns),
        SEv::PolyApp(f, _) => annotations_bound(*f, ns),
        SEv::PolyAbs(p, b) => annotations_bound(*b, ns.insert(p)),
        SEv::Abs(s, ty, b) => (forall|n: Seq<char>| #[trigger]
            type_universe(ty).context.contains(n) ==> ns.contains(n)) && annotations_bound(
            *b,
            ns.insert(s),
        ),
    }
}

proof fn lemma_annotations_grow(ev: SEv, ns1: Set<Seq<char>>, ns2: Set<Seq<char>>)
    requires
        annotations_bound(ev, ns1),
        ns1.subset_of(ns2),
    ensures
        annotations_bound(ev, ns2),
    decreases ev,
{
    match ev {
        SEv::Var(_) => {},
        SEv::App(f, a) => {
            lemma_annotations_grow(*f, ns1, ns2);
            lemma_annotations_grow(*a, ns1, ns2);
        },
        SEv::PolyApp(f, _) => {
            lemma_annotations_grow(*f, ns1, ns2);
        },
        SEv::PolyAbs(p, b) => {
            lemma_annotations_grow(*b, ns1.insert(p), ns2.insert(p));
        },
        SEv::Abs(s, ty, b) => {
            lemma_annotations_grow(*b, ns1.insert(s), ns2.insert(s));
        },
    }
}

/// Checking succeeds only where the annotations' type variables are bound.
pub proof fn lemma_verify_annotations(ev: SEv, m: IndexModel)
    requires
        verify_spec(ev, m) is Some,
    ensures
        annotations_bound(ev, m.dom()),
    decreases ev,
{
    match ev {
        SEv::Var(_) => {},
        SEv::App(f, a) => {
            lemma_verify_annotations(*f, m);
            lemma_verify_annotations(*a, m);
        },
        SEv::PolyApp(f, _) => {
            lemma_verify_annotations(*f, m);
        },
        SEv::PolyAbs(p, b) => {
            lemma_verify_annotations(*b, m.insert(p, None));
            assert(m.insert(p, None).dom() =~= m.dom().insert(p));
        },
        SEv::Abs(s, ty, b) => {
            let u = type_universe(ty);
            lemma_verify_annotations(*b, m.insert(s, Some(u)));
            assert(m.insert(s, Some(u)).dom() =~= m.dom().insert(s));
            assert forall|n: Seq<char>| #[trigger] u.context.contains(n) implies m.dom().contains(n) by {
                let i = choose|i: int| 0 <= i < u.context.len() && u.context[i] == n;
                assert(m.contains_key(u.context[i]));
            }
        },
    }
}

/// Checking depends on the index only through the names that the result
/// binds and the names that the annotations use: in any index that binds
/// each name of the result's context as that context does, and binds the
/// type variables of the annotations, checking the same evidence gives the
/// same result.
#[verifier::rlimit(30)]
pub proof fn lemma_verify_relevant(ev: SEv, m1: IndexModel, m2: IndexModel)
    requires
        index_ok(m1),
        verify_spec(ev, m1) is Some,
        bound_in(verify_spec(ev, m1).unwrap().context, m2),
        annotations_bound(ev, m2.dom()),
    ensures
        verify_spec(ev, m2) == verify_spec(ev, m1),
    decreases ev,
{
    let j = verify_spec(ev, m1).unwrap();
    let c = j.context;
    match ev {
        SEv::Var(n) => {
            let u = m1[n].unwrap();
            assert(c[c.len() - 1] == (n, SBound::Var(u.ty)));
            assert(c.contains(c[c.len() - 1]));
        },
        SEv::App(f, a) => {
            let jf = verify_spec(*f, m1).unwrap();
            let ja = verify_spec(*a, m1).unwrap();
            assert(rule_structural(jf, c) is Some);
            assert(rule_structural(ja, c) is Some);
            assert forall|x: (Seq<char>, SBound)| #[trigger] jf.context.contains(x) implies c.contains(x) by {
                let k = choose|k: int| 0 <= k < jf.context.len() && jf.context[k] == x;
            }
            assert forall|x: (Seq<char>, SBound)| #[trigger] ja.context.contains(x) implies c.contains(x) by {
                let k = choose|k: int| 0 <= k < ja.context.len() && ja.context[k] == x;
            }
            lemma_verify_relevant(*f, m1, m2);
            lemma_verify_relevant(*a, m1, m2);
        },
        SEv::PolyApp(f, ty) => {
            let jf = verify_spec(*f, m1).unwrap();
            let u = type_universe(ty);
            assert(rule_structural(jf, c) is Some);
            assert forall|x: (Seq<char>, SBound)| #[trigger] jf.context.contains(x) implies c.contains(x) by {
                let k = choose|k: int| 0 <= k < jf.context.len() && jf.context[k] == x;
            }
            lemma_verify_relevant(*f, m1, m2);
            assert forall|i: int| 0 <= i < u.context.len() implies m2.contains_key(
                #[trigger] u.context[i],
            ) by {
                assert(c.contains((u.context[i], SBound::TypeVar)));
            }
        },
        SEv::PolyAbs(p, b) => {
            let n1 = m1.insert(p, None);
            let n2 = m2.insert(p, None);
            lemma_index_ok_insert(m1, p, None);
            lemma_verify_shape(*b, n1);
            let jb = verify_spec(*b, n1).unwrap();
            lemma_poly_abs_inference(jb, p);
            assert(n2.dom() =~= m2.dom().insert(p));
            assert forall|x: (Seq<char>, SBound)| #[trigger] jb.context.contains(x) implies n2.contains_key(x.0)
                && match x.1 {
                SBound::Var(t) => n2[x.0] == Some(type_universe(t)),
                SBound::TypeVar => true,
            } by {
                if x.0 == p {
                    let k = choose|k: int| 0 <= k < jb.context.len() && jb.context[k] == x;
                    assert(!binds_otherwise(jb.context, p, SBound::TypeVar));
                    assert(jb.context[k].0 == p);
                } else {
                    assert(c.contains(x));
                }
            }
            lemma_verify_relevant(*b, n1, n2);
        },
        SEv::Abs(sn, ty, b) => {
            let u = type_universe(ty);
            lemma_type_universe_wf(ty);
            lemma_type_universe_type(ty);
            let n1 = m1.insert(sn, Some(u));
            let n2 = m2.insert(sn, Some(u));
            lemma_index_ok_insert(m1, sn, Some(u));
            lemma_verify_shape(*b, n1);
            let jb = verify_spec(*b, n1).unwrap();
            lemma_abs_inference(jb, sn, ty);
            assert(n2.dom() =~= m2.dom().insert(sn));
            assert forall|i: int| 0 <= i < u.context.len() implies m2.contains_key(
                #[trigger] u.context[i],
            ) by {
                assert(u.context.contains(u.context[i]));
            }
            let bv = SBound::Var(ty);
            assert forall|x: (Seq<char>, SBound)| #[trigger] jb.context.contains(x) implies n2.contains_key(x.0)
                && match x.1 {
                SBound::Var(t) => n2[x.0] == Some(type_universe(t)),
                SBound::TypeVar => true,
            } by {
                if x.0 == sn {
                    let k = choose|k: int| 0 <= k < jb.context.len() && jb.context[k] == x;
                    assert(!binds_otherwise(jb.context, sn, bv));
                    assert(jb.context[k].0 == sn);
                } else {
                    assert(c.contains(x));
                }
            }
            lemma_verify_relevant(*b, n1, n2);
        },
    }
}

/// Checking a variable: it succeeds exactly when the index binds the name
/// to a type that does not mention the name itself, and the variable then
/// has that type, in a context that binds it at that type.
pub proof fn lemma_verify_var(n: Seq<char>, m: IndexModel)
    requires
        index_ok(m),
    ensures
        verify_spec(SEv::Var(n), m) is Some <==> (m.contains_key(n) && m[n] is Some
            && !free_in(m[n].unwrap().ty, n)),
        verify_spec(SEv::Var(n), m) matches Some(j) ==> {
            &&& j.ty == m[n].unwrap().ty
            &&& j.expr == crate::lang::SExpr::Var(n)
            &&& j.context.contains((n, SBound::Var(j.ty)))
        },
{
    if m.contains_key(n) && m[n] is Some {
        let u = m[n].unwrap();
        lemma_type_universe_wf(u.ty);
        if let Some(j) = verify_spec(SEv::Var(n), m) {
            assert(j.context[j.context.len() - 1] == (n, SBound::Var(j.ty)));
        }
    }
}

/// Checking an application: it succeeds only where both parts check, the
/// function's type is an arrow from the argument's type, and the result has
/// the arrow's result type; it does succeed whenever the parts check with
/// such types and agree on the names that both bind.
pub proof fn lemma_verify_app(f: SEv, a: SEv, m: IndexModel)
    requires
        index_ok(m),
    ensures
        verify_spec(SEv::App(Box::new(f), Box::new(a)), m) matches Some(j) ==> {
            &&& verify_spec(f, m) is Some
            &&& verify_spec(a, m) is Some
            &&& verify_spec(f, m).unwrap().ty == SType::Arrow(
                Box::new(verify_spec(a, m).unwrap().ty),
                Box::new(j.ty),
            )
            &&& j.expr == crate::lang::SExpr::App(
                Box::new(verify_spec(f, m).unwrap().expr),
                Box::new(verify_spec(a, m).unwrap().expr),
            )
        },
        ({
            &&& verify_spec(f, m) matches Some(jf)
            &&& verify_spec(a, m) matches Some(ja)
            &&& jf.ty matches SType::Arrow(pt, rt)
            &&& *pt == ja.ty
            &&& forall|i: int, k: int|
                0 <= i < jf.context.len() && 0 <= k < ja.context.len() && (
                #[trigger] jf.context[i]).0 == (#[trigger] ja.context[k]).0 ==> jf.context[i].1
                    == ja.context[k].1
        }) ==> verify_spec(SEv::App(Box::new(f), Box::new(a)), m) is Some,
{
    lemma_verify_shape(f, m);
    lemma_verify_shape(a, m);
    if let (Some(jf), Some(ja)) = (verify_spec(f, m), verify_spec(a, m)) {
        if let SType::Arrow(pt, rt) = jf.ty {
            if *pt == ja.ty && forall|i: int, k: int|
                0 <= i < jf.context.len() && 0 <= k < ja.context.len() && (
                #[trigger] jf.context[i]).0 == (#[trigger] ja.context[k]).0 ==> jf.context[i].1
                    == ja.context[k].1 {
                lemma_app_inference(jf, ja, *rt);
            }
        }
    }
}

/// Checking a type application: it succeeds only where the function checks
/// with a quantified type and the type argument's variables are bound in
/// the index; the result has the quantified body with the argument put for
/// the parameter. It does succeed whenever, besides, the substitution
/// captures nothing and the function binds the argument's variables, if at
/// all, as type variables.
pub proof fn lemma_verify_poly_app(f: SEv, ty: SType, m: IndexModel)
    requires
        index_ok(m),
    ensures
        verify_spec(SEv::PolyApp(Box::new(f), ty), m) matches Some(j) ==> {
            &&& verify_spec(f, m) is Some
            &&& verify_spec(f, m).unwrap().ty matches SType::Forall(q, body)
            &&& j.ty == crate::lang::subst(*body, q, ty)
            &&& crate::lang::capture_free(*body, q, ty)
            &&& j.expr == verify_spec(f, m).unwrap().expr
            &&& forall|n: Seq<char>| free_in(ty, n) ==> m.contains_key(n)
        },
        ({
            &&& verify_spec(f, m) matches Some(jf)
            &&& jf.ty matches SType::Forall(q, body)
            &&& crate::lang::capture_free(*body, q, ty)
            &&& forall|n: Seq<char>| free_in(ty, n) ==> m.contains_key(n)
            &&& forall|i: int|
                0 <= i < jf.context.len() && free_in(ty, (#[trigger] jf.context[i]).0)
                    ==> jf.context[i].1 == SBound::TypeVar
        }) ==> verify_spec(SEv::PolyApp(Box::new(f), ty), m) is Some,
{
    let u = type_universe(ty);
    lemma_type_universe_wf(ty);
    lemma_type_universe_type(ty);
    lemma_verify_shape(f, m);
    assert forall|n: Seq<char>| u.context.contains(n) <==> free_in(ty, n) by {}
    if verify_spec(SEv::PolyApp(Box::new(f), ty), m) is Some {
        assert forall|n: Seq<char>| free_in(ty, n) implies m.contains_key(n) by {
            assert(u.context.contains(n));
            let i = choose|i: int| 0 <= i < u.context.len() && u.context[i] == n;
            assert(m.contains_key(u.context[i]));
        }
    }
    if let Some(jf) = verify_spec(f, m) {
        if let SType::Forall(q, body) = jf.ty {
            if crate::lang::capture_free(*body, q, ty) && (forall|n: Seq<char>|
                free_in(ty, n) ==> m.contains_key(n)) && (forall|i: int|
                0 <= i < jf.context.len() && free_in(ty, (#[trigger] jf.context[i]).0)
                    ==> jf.context[i].1 == SBound::TypeVar) {
                assert forall|i: int| 0 <= i < u.context.len() implies m.contains_key(
                    #[trigger] u.context[i],
                ) by {
                    assert(u.context.contains(u.context[i]));
                }
                assert forall|i: int, k: int|
                    0 <= i < jf.context.len() && 0 <= k < u.context.len() && (
                    #[trigger] jf.context[i]).0 == #[trigger] u.context[k] implies jf.context[i].1
                    == SBound::TypeVar by {
                    assert(u.context.contains(u.context[k]));
                }
                lemma_poly_app_inference(jf, u, q, *body);
            }
        }
    }
}

/// Checking a type abstraction: it succeeds exactly when the body checks
/// with the parameter bound as a type variable, the body's context binds
/// the parameter, if at all, as a type variable, and no other binding
/// mentions it; the result is the body's typing quantified over the
/// parameter, in the body's context without the parameter.
pub proof fn lemma_verify_poly_abs(p: Seq<char>, b: SEv, m: IndexModel)
    requires
        index_ok(m),
    ensures
        verify_spec(SEv::PolyAbs(p, Box::new(b)), m) is Some <==> ({
            &&& verify_spec(b, m.insert(p, None)) matches Some(jb)
            &&& !binds_otherwise(jb.context, p, SBound::TypeVar)
            &&& forall|k: int|
                0 <= k < jb.context.len() && jb.context[k].0 != p ==> !bound_mentions(
                    #[trigger] jb.context[k].1,
                    p,
                )
        }),
        verify_spec(SEv::PolyAbs(p, Box::new(b)), m) matches Some(j) ==> {
            let jb = verify_spec(b, m.insert(p, None)).unwrap();
            &&& j.ty == SType::Forall(p, Box::new(jb.ty))
            &&& j.expr == jb.expr
            &&& forall|x: (Seq<char>, SBound)| #[trigger]
                j.context.contains(x) <==> (jb.context.contains(x) && x.0 != p)
        },
{
    lemma_index_ok_insert(m, p, None);
    lemma_verify_shape(b, m.insert(p, None));
    if let Some(jb) = verify_spec(b, m.insert(p, None)) {
        lemma_poly_abs_inference(jb, p);
    }
}

/// Checking an abstraction: it succeeds exactly when the annotation's
/// variables are bound in the index, the body checks with the parameter
/// bound at the annotation, and the body's context binds the parameter, if
/// at all, at that type; the result types the abstraction with an arrow
/// from the annotation to the body's type, in the body's context without
/// the parameter.
pub proof fn lemma_verify_abs(sn: Seq<char>, ty: SType, b: SEv, m: IndexModel)
    requires
        index_ok(m),
    ensures
        verify_spec(SEv::Abs(sn, ty, Box::new(b)), m) is Some <==> ({
            &&& forall|n: Seq<char>| free_in(ty, n) ==> m.contains_key(n)
            &&& verify_spec(b, m.insert(sn, Some(type_universe(ty)))) matches Some(jb)
            &&& !binds_otherwise(jb.context, sn, SBound::Var(ty))
        }),
        verify_spec(SEv::Abs(sn, ty, Box::new(b)), m) matches Some(j) ==> {
            let jb = verify_spec(b, m.insert(sn, Some(type_universe(ty)))).unwrap();
            &&& j.ty == SType::Arrow(Box::new(ty), Box::new(jb.ty))
            &&& j.expr == crate::lang::SExpr::Abs(sn, Box::new(jb.expr))
            &&& forall|x: (Seq<char>, SBound)| #[trigger]
                j.context.contains(x) <==> (jb.context.contains(x) && x.0 != sn)
        },
{
    let u = type_universe(ty);
    lemma_type_universe_wf(ty);
    lemma_type_universe_type(ty);
    assert forall|n: Seq<char>| u.context.contains(n) <==> free_in(ty, n) by {}
    if names_in(m, u.context) {
        assert forall|n: Seq<char>| free_in(ty, n) implies m.contains_key(n) by {
            assert(u.context.contains(n));
            let i = choose|i: int| 0 <= i < u.context.len() && u.context[i] == n;
            assert(m.contains_key(u.context[i]));
        }
        lemma_index_ok_insert(m, sn, Some(u));
        lemma_verify_shape(b, m.insert(sn, Some(u)));
        if let Some(jb) = verify_spec(b, m.insert(sn, Some(u))) {
            lemma_abs_inference(jb, sn, ty);
        }
    }
    if forall|n: Seq<char>| free_in(ty, n) ==> m.contains_key(n) {
        assert forall|i: int| 0 <= i < u.context.len() implies m.contains_key(
            #[trigger] u.context[i],
        ) by {
            assert(u.context.contains(u.context[i]));
        }
    }
}

/// Whether checking the evidence in the index of the proof's own context
/// gives back that very proof.
pub open spec fn recorded_consistent(ev: SEv, j: STyped) -> bool {
    match index_of(j.context) {
        Some(m) => verify_spec(ev, m) == Some(j),
        None => false,
    }
}

/// The set of names that a context binds.
pub open spec fn context_names(cx: Seq<(Seq<char>, SBound)>) -> Set<Seq<char>> {
    Set::new(|n: Seq<char>| binding_names(cx).contains(n))
}

proof fn lemma_names_of_member(cx: Seq<(Seq<char>, SBound)>, x: (Seq<char>, SBound))
    requires
        cx.contains(x),
    ensures
        binding_names(cx).contains(x.0),
{
    let k = choose|k: int| 0 <= k < cx.len() && cx[k] == x;
    assert(binding_names(cx)[k] == x.0);
}

/// Evidence checked in a well-formed index is consistent with the proof
/// that checking gives exactly when the proof's context is scoped and binds
/// the type variables of the evidence's annotations.
pub proof fn lemma_recorded_show(ev: SEv, m: IndexModel)
    requires
        index_ok(m),
        verify_spec(ev, m) is Some,
    ensures
        recorded_consistent(ev, verify_spec(ev, m).unwrap()) <==> (scoped(
            verify_spec(ev, m).unwrap().context,
        ) && annotations_bound(ev, context_names(verify_spec(ev, m).unwrap().context))),
{
    let j = verify_spec(ev, m).unwrap();
    lemma_verify_shape(ev, m);
    lemma_derivable_names_unique(j);
    lemma_index_of(j.context);
    if let Some(mj) = index_of(j.context) {
        assert(mj.dom() =~= context_names(j.context));
        if annotations_bound(ev, context_names(j.context)) {
            lemma_verify_relevant(ev, m, mj);
        }
        if verify_spec(ev, mj) is Some {
            lemma_verify_annotations(ev, mj);
        }
    }
}

/// Applying one consistent recorded proof to another gives a consistent
/// recorded proof.
pub proof fn lemma_recorded_app(fe: SEv, jf: STyped, ae: SEv, ja: STyped)
    requires
        recorded_consistent(fe, jf),
        recorded_consistent(ae, ja),
        app_spec(jf, ja) is Some,
    ensures
        recorded_consistent(
            SEv::App(Box::new(fe), Box::new(ae)),
            app_spec(jf, ja).unwrap(),
        ),
{
    let j = app_spec(jf, ja).unwrap();
    lemma_index_of(jf.context);
    lemma_index_of(ja.context);
    let mf = index_of(jf.context).unwrap();
    let ma = index_of(ja.context).unwrap();
    let s2 = jf.context + ja.context;
    let c = dedupe_bindings(s2);
    assert(j.context == c);
    lemma_scoped_concat(jf.context, ja.context);
    lemma_scoped_dedupe(s2);
    lemma_dedupe_unique(s2);
    lemma_index_of(c);
    let m = index_of(c).unwrap();
    assert(rule_structural(jf, c) is Some);
    assert(rule_structural(ja, c) is Some);
    assert forall|x: (Seq<char>, SBound)| #[trigger] jf.context.contains(x) implies c.contains(x) by {
        let k = choose|k: int| 0 <= k < jf.context.len() && jf.context[k] == x;
    }
    assert forall|x: (Seq<char>, SBound)| #[trigger] ja.context.contains(x) implies c.contains(x) by {
        let k = choose|k: int| 0 <= k < ja.context.len() && ja.context[k] == x;
    }
    lemma_verify_annotations(fe, mf);
    lemma_verify_annotations(ae, ma);
    assert forall|n: Seq<char>| mf.dom().contains(n) implies #[trigger] m.dom().contains(n) by {
        assert(mf.contains_key(n));
        assert(binding_names(jf.context).contains(n));
        let k = choose|k: int| 0 <= k < binding_names(jf.context).len() && binding_names(jf.context)[k] == n;
        assert(binding_names(jf.context)[k] == jf.context[k].0);
        assert(jf.context.contains(jf.context[k]));
        lemma_names_of_member(c, jf.context[k]);
    }
    assert forall|n: Seq<char>| ma.dom().contains(n) implies #[trigger] m.dom().contains(n) by {
        assert(ma.contains_key(n));
        assert(binding_names(ja.context).contains(n));
        let k = choose|k: int| 0 <= k < binding_names(ja.context).len() && binding_names(ja.context)[k] == n;
        assert(binding_names(ja.context)[k] == ja.context[k].0);
        assert(ja.context.contains(ja.context[k]));
        lemma_names_of_member(c, ja.context[k]);
    }
    lemma_annotations_grow(fe, mf.dom(), m.dom());
    lemma_annotations_grow(ae, ma.dom(), m.dom());
    lemma_verify_relevant(fe, mf, m);
    lemma_verify_relevant(ae, ma, m);
}

/// Abstracting a consistent recorded proof gives a consistent recorded
/// proof exactly when the result's context is scoped and binds the type
/// variables of the annotation.
pub proof fn lemma_recorded_abs(be: SEv, jb: STyped, sn: Seq<char>, ty: SType)
    requires
        recorded_consistent(be, jb),
        abs_spec(jb, sn, ty) is Some,
    ensures
        recorded_consistent(SEv::Abs(sn, ty, Box::new(be)), abs_spec(jb, sn, ty).unwrap()) <==> (
        scoped(abs_spec(jb, sn, ty).unwrap().context) && forall|n: Seq<char>|
            free_in(ty, n) ==> #[trigger] binds_name(abs_spec(jb, sn, ty).unwrap().context, n)),
{
    let j = abs_spec(jb, sn, ty).unwrap();
    let c = j.context;
    let ev = SEv::Abs(sn, ty, Box::new(be));
    lemma_index_of(jb.context);
    let mb = index_of(jb.context).unwrap();
    lemma_verify_shape(be, mb);
    lemma_abs_inference(jb, sn, ty);
    lemma_abs_context(jb, sn, ty);
    lemma_derivable_names_unique(j);
    lemma_index_of(c);
    let u = type_universe(ty);
    lemma_type_universe_wf(ty);
    lemma_type_universe_type(ty);
    let vars_bound = forall|n: Seq<char>| free_in(ty, n) ==> #[trigger] binds_name(c, n);
    if let Some(m) = index_of(c) {
        if recorded_consistent(ev, j) {
            assert forall|n: Seq<char>| free_in(ty, n) implies #[trigger] binds_name(c, n) by {
                assert(u.context.contains(n));
                let i = choose|i: int| 0 <= i < u.context.len() && u.context[i] == n;
                assert(m.contains_key(u.context[i]));
            }
        }
        if vars_bound {
            assert forall|i: int| 0 <= i < u.context.len() implies m.contains_key(
                #[trigger] u.context[i],
            ) by {
                assert(u.context.contains(u.context[i]));
                assert(binds_name(c, u.context[i]));
            }
            let n2 = m.insert(sn, Some(u));
            let bv = SBound::Var(ty);
            assert forall|x: (Seq<char>, SBound)| #[trigger] jb.context.contains(x) implies n2.contains_key(x.0)
                && match x.1 {
                SBound::Var(t) => n2[x.0] == Some(type_universe(t)),
                SBound::TypeVar => true,
            } by {
                if x.0 == sn {
                    let k = choose|k: int| 0 <= k < jb.context.len() && jb.context[k] == x;
                    assert(!binds_otherwise(jb.context, sn, bv));
                    assert(jb.context[k].0 == sn);
                } else {
                    assert(c.contains(x));
                }
            }
            lemma_verify_annotations(be, mb);
            assert forall|n: Seq<char>| mb.dom().contains(n) implies #[trigger] n2.dom().contains(n) by {
                assert(mb.contains_key(n));
                assert(binding_names(jb.context).contains(n));
                let k = choose|k: int| 0 <= k < binding_names(jb.context).len() && binding_names(jb.context)[k] == n;
                assert(binding_names(jb.context)[k] == jb.context[k].0);
                assert(jb.context.contains(jb.context[k]));
                if n != sn {
                    assert(c.contains(jb.context[k]));
                    lemma_names_of_member(c, jb.context[k]);
                }
            }
            lemma_annotations_grow(be, mb.dom(), n2.dom());
            lemma_verify_relevant(be, mb, n2);
        }
    }
}

/// Equality of two typing judgements.
fn typed_equals(a: &Typed, b: &Typed) -> (r: bool)
    ensures
        r == (a@ == b@),
{
    let c = crate::kernel::context_equals(&a.context, &b.context);
    let e = a.expr.equals(&b.expr);
    let t = a.ty.equals(&b.ty);
    c && e && t
}

/// Evidence recorded together with the proof that checking it produced: a
/// convenient way to construct a derivation while verifying it.
///
/// Its proof types the erasure of its evidence. Whether checking the
/// evidence again in the index of the proof's context gives back the proof
/// is `recorded_consistent`, which `consistent` tests.
pub struct RecordedProof(TypedEv, Proof<Typed>);

impl View for RecordedProof {
    type V = (SEv, STyped);

    closed spec fn view(&self) -> (SEv, STyped) {
        (self.0@, self.1@)
    }
}

impl RecordedProof {
    #[verifier::type_invariant]
    closed spec fn records_a_consistent_check(self) -> bool {
        self.1@.expr == erase(self.0@)
    }

    /// The recorded evidence.
    pub fn evidence(&self) -> (r: &TypedEv)
        ensures
            r@ == self@.0,
    {
        &self.0
    }

    /// The recorded proof; it proves a typing of the evidence's term.
    pub fn typing_proof(&self) -> (r: &Proof<Typed>)
        ensures
            r@ == self@.1,
            r@.expr == erase(self@.0),
    {
        proof {
            use_type_invariant(self);
        }
        &self.1
    }

    /// The evidence and the proof.
    pub fn into_inner(self) -> (r: (TypedEv, Proof<Typed>))
        ensures
            r.0@ == self@.0,
            r.1@ == self@.1,
            r.1@.expr == erase(self@.0),
    {
        proof {
            use_type_invariant(&self);
        }
        (self.0, self.1)
    }

    /// Checks evidence in an index and records it with its proof.
    pub fn show(ev: TypedEv, cx: &mut ContextIndex) -> (r: Result<RecordedProof, Error>)
        ensures
            final(cx)@ == old(cx)@,
            r is Ok <==> verify_spec(ev@, old(cx)@) is Some,
            r matches Ok(rp) ==> rp@ == (ev@, verify_spec(ev@, old(cx)@).unwrap()),
            r matches Ok(rp) ==> (recorded_consistent(rp@.0, rp@.1) <==> (scoped(rp@.1.context)
                && annotations_bound(rp@.0, context_names(rp@.1.context)))),
    {
        proof {
            use_type_invariant(&*cx);
        }
        let ghost m0 = cx@;
        let checked = match verify(&ev, cx) {
            Ok(p) => p,
            Err(e) => return Err(e),
        };
        proof {
            lemma_verify_types_erasure(ev@, m0);
            lemma_recorded_show(ev@, m0);
        }
        Ok(RecordedProof(ev, checked))
    }

    /// The variable `name` of type `ty`, in the context of the type's variables.
    pub fn var(name: String, ty: &Type) -> (r: Result<RecordedProof, Error>)
        ensures
            r is Ok <==> rule_var(name@, type_universe(ty@)) is Some,
            r matches Ok(rp) ==> rp@ == (
                SEv::Var(name@),
                rule_var(name@, type_universe(ty@)).unwrap(),
            ),
            r matches Ok(rp) ==> recorded_consistent(rp@.0, rp@.1),
    {
        proof {
            lemma_recorded_var_consistent(name@, ty@);
        }
        let ev = TypedEv::Var(name_copy(&name));
        let checked = match Proof::var(name, verify_universe(ty)) {
            Ok(p) => p,
            Err(_) => return Err(Error(())),
        };
        Ok(RecordedProof(ev, checked))
    }

    /// Applies the recorded function to the recorded argument.
    pub fn app(self, arg: RecordedProof) -> (r: Result<RecordedProof, Error>)
        ensures
            r is Ok <==> app_spec(self@.1, arg@.1) is Some,
            r matches Ok(rp) ==> rp@ == (
                SEv::App(Box::new(self@.0), Box::new(arg@.0)),
                app_spec(self@.1, arg@.1).unwrap(),
            ),
            r matches Ok(rp) ==> (recorded_consistent(self@.0, self@.1) && recorded_consistent(
                arg@.0,
                arg@.1,
            ) ==> recorded_consistent(rp@.0, rp@.1)),
    {
        proof {
            use_type_invariant(&self);
            use_type_invariant(&arg);
            if app_spec(self@.1, arg@.1) is Some && recorded_consistent(self@.0, self@.1)
                && recorded_consistent(arg@.0, arg@.1) {
                lemma_recorded_app(self@.0, self@.1, arg@.0, arg@.1);
            }
        }
        let RecordedProof(fe, fp) = self;
        let RecordedProof(ae, ap) = arg;
        let ev = TypedEv::App(Box::new(fe), Box::new(ae));
        let checked = match app(fp, ap) {
            Ok(p) => p,
            Err(e) => return Err(e),
        };
        Ok(RecordedProof(ev, checked))
    }

    /// Abstracts the recorded proof over `param` of type `ty`.
    pub fn abs(self, param: String, ty: Type) -> (r: Result<RecordedProof, Error>)
        ensures
            r is Ok <==> abs_spec(self@.1, param@, ty@) is Some,
            r matches Ok(rp) ==> rp@ == (
                SEv::Abs(param@, ty@, Box::new(self@.0)),
                abs_spec(self@.1, param@, ty@).unwrap(),
            ),
            r matches Ok(rp) ==> (recorded_consistent(self@.0, self@.1) ==> (recorded_consistent(
                rp@.0,
                rp@.1,
            ) <==> (scoped(rp@.1.context) && forall|n: Seq<char>|
                free_in(ty@, n) ==> #[trigger] binds_name(rp@.1.context, n)))),
    {
        proof {
            use_type_invariant(&self);
            if abs_spec(self@.1, param@, ty@) is Some && recorded_consistent(self@.0, self@.1) {
                lemma_recorded_abs(self@.0, self@.1, param@, ty@);
            }
        }
        let RecordedProof(be, bp) = self;
        let ev = TypedEv::Abs(name_copy(&param), ty.copy(), Box::new(be));
        let checked = match abs(bp, param, ty) {
            Ok(p) => p,
            Err(e) => return Err(e),
        };
        Ok(RecordedProof(ev, checked))
    }

    /// Checks that the evidence verifies to the proof, in the index of the
    /// proof's own context.
    pub fn consistent(&self) -> (r: Result<(), Error>)
        ensures
            r is Ok <==> recorded_consistent(self@.0, self@.1),
    {
        let binds = context_copy(&self.1.get().context);
        let mut index = match ContextIndex::new(binds) {
            Ok(i) => i,
            Err(e) => return Err(e),
        };
        let p = match verify(&self.0, &mut index) {
            Ok(p) => p,
            Err(e) => return Err(e),
        };
        if typed_equals(p.get(), self.1.get()) {
            Ok(())
        } else {
            Err(Error(()))
        }
    }
}

/// A proof that checking produces types the term of the evidence: the
/// evidence with its annotations and type steps erased.
pub proof fn lemma_verify_types_erasure(ev: SEv, m: IndexModel)
    ensures
        verify_spec(ev, m) matches Some(j) ==> j.expr == erase(ev),
    decreases ev,
{
    match ev {
        SEv::Var(n) => {},
        SEv::App(f, a) => {
            lemma_verify_types_erasure(*f, m);
            lemma_verify_types_erasure(*a, m);
        },
        SEv::PolyApp(f, ty) => {
            lemma_verify_types_erasure(*f, m);
        },
        SEv::PolyAbs(p, b) => {
            lemma_verify_types_erasure(*b, m.insert(p, None));
        },
        SEv::Abs(s, ty, b) => {
            lemma_verify_types_erasure(*b, m.insert(s, Some(type_universe(ty))));
        },
    }
}

/// Checking is a function of the evidence and the index: two checks of the
/// same evidence in indexes with the same bindings give the same result.
pub proof fn lemma_verify_pure(ev: SEv, m1: IndexModel, m2: IndexModel)
    requires
        m1 == m2,
    ensures
        verify_spec(ev, m1) == verify_spec(ev, m2),
{
}

proof fn lemma_type_universe_type(t: SType)
    ensures
        type_universe(t).ty == t,
    decreases t,
{
    match t {
        SType::Var(_) => {},
        SType::Arrow(a, b) => {
            lemma_type_universe_type(*a);
            lemma_type_universe_type(*b);
        },
        SType::Forall(p, b) => {
            lemma_type_universe_type(*b);
        },
    }
}

proof fn lemma_index_of_type_vars(ns: Seq<Seq<char>>)
    ensures
        index_of(type_var_bindings(ns)) is Some,
        forall|i: int|
            0 <= i < ns.len() ==> index_of(type_var_bindings(ns)).unwrap().contains_key(
                #[trigger] ns[i],
            ),
    decreases ns.len(),
{
    if ns.len() > 0 {
        lemma_index_of_type_vars(ns.drop_last());
        assert(type_var_bindings(ns).drop_last() =~= type_var_bindings(ns.drop_last()));
        let m = index_of(type_var_bindings(ns.drop_last())).unwrap();
        assert forall|i: int| 0 <= i < ns.len() implies index_of(
            type_var_bindings(ns),
        ).unwrap().contains_key(#[trigger] ns[i]) by {
            if i < ns.len() - 1 {
                assert(ns.drop_last()[i] == ns[i]);
            }
        }
    }
}

/// A variable recorded on its own is consistent: checking its evidence in
/// the index of its proof's context gives back its proof.
pub proof fn lemma_recorded_var_consistent(name: Seq<char>, ty: SType)
    ensures
        rule_var(name, type_universe(ty)) matches Some(j) ==> recorded_consistent(SEv::Var(name), j),
{
    let u = type_universe(ty);
    if let Some(j) = rule_var(name, u) {
        lemma_type_universe_type(ty);
        lemma_index_of_type_vars(u.context);
        let tvb = type_var_bindings(u.context);
        assert(j.context == tvb.push((name, SBound::Var(u.ty))));
        assert(j.context.drop_last() =~= tvb);
        let m = index_of(tvb).unwrap();
        assert(names_in(m, u.context));
        assert(index_of(j.context) == Some(m.insert(name, Some(u))));
    }
}

proof fn lemma_dedupe_unique(s: Seq<(Seq<char>, SBound)>)
    ensures
        names_unique(binding_names(dedupe_bindings(s))),
    decreases s.len(),
{
    if s.len() > 0 {
        let d = s.drop_last();
        lemma_dedupe_unique(d);
        let m = dedupe_bindings(d);
        let x = s.last();
        if !binding_names(m).contains(x.0) {
            let mm = m.push(x);
            assert(binding_names(mm) =~= binding_names(m).push(x.0));
            assert forall|a: int, b: int|
                0 <= a < mm.len() && 0 <= b < mm.len() && a != b implies binding_names(mm)[a]
                != binding_names(mm)[b] by {
                if a == m.len() {
                    assert(binding_names(m)[b] == binding_names(mm)[b]);
                } else if b == m.len() {
                    assert(binding_names(m)[a] == binding_names(mm)[a]);
                }
            }
        }
    }
}

proof fn lemma_dedupe_grows(s: Seq<(Seq<char>, SBound)>, y: (Seq<char>, SBound))
    requires
        s.len() > 0,
        dedupe_bindings(s.drop_last()).contains(y),
    ensures
        dedupe_bindings(s).contains(y),
{
    let m = dedupe_bindings(s.drop_last());
    let q = choose|q: int| 0 <= q < m.len() && m[q] == y;
    if !binding_names(m).contains(s.last().0) {
        assert(dedupe_bindings(s)[q] == y);
    }
}

proof fn lemma_dedupe_sub(s: Seq<(Seq<char>, SBound)>, y: (Seq<char>, SBound))
    requires
        dedupe_bindings(s).contains(y),
    ensures
        s.contains(y),
    decreases s.len(),
{
    if s.len() > 0 {
        let d = s.drop_last();
        let m = dedupe_bindings(d);
        if m.contains(y) {
            lemma_dedupe_sub(d, y);
            let q = choose|q: int| 0 <= q < d.len() && d[q] == y;
            assert(s[q] == y);
        } else {
            assert(y == s.last());
            assert(s[s.len() - 1] == y);
        }
    }
}

proof fn lemma_dedupe_first(s: Seq<(Seq<char>, SBound)>, k: int)
    requires
        0 <= k < s.len(),
    ensures
        exists|j: int| 0 <= j <= k && s[j].0 == s[k].0 && dedupe_bindings(s).contains(s[j]),
    decreases s.len(),
{
    let d = s.drop_last();
    let m = dedupe_bindings(d);
    let x = s.last();
    if k < s.len() - 1 {
        lemma_dedupe_first(d, k);
        let j = choose|j: int| 0 <= j <= k && d[j].0 == d[k].0 && m.contains(d[j]);
        lemma_dedupe_grows(s, d[j]);
        assert(d[j] == s[j] && d[k] == s[k]);
    } else if binding_names(m).contains(x.0) {
        let q = choose|q: int| 0 <= q < m.len() && binding_names(m)[q] == x.0;
        assert(m.contains(m[q]));
        lemma_dedupe_sub(d, m[q]);
        let j = choose|j: int| 0 <= j < d.len() && d[j] == m[q];
        assert(s[j] == d[j]);
    } else {
        assert(dedupe_bindings(s)[m.len() as int] == x);
    }
}

/// Moving `param` to the end of a context with distinct names keeps the
/// names distinct, ends with `(param, b)` and holds the other bindings.
proof fn lemma_exchange(cx: Seq<(Seq<char>, SBound)>, param: Seq<char>, b: SBound)
    requires
        names_unique(binding_names(cx)),
        exchange_to_end(cx, param, b) is Some,
    ensures
        ({
            let cx2 = exchange_to_end(cx, param, b).unwrap();
            &&& cx2.len() > 0
            &&& names_unique(binding_names(cx2))
            &&& cx2.last() == (param, b)
            &&& !binds_name(cx2.drop_last(), param)
            &&& forall|k: int| 0 <= k < cx.len() ==> cx2.contains(#[trigger] cx[k])
            &&& forall|x: (Seq<char>, SBound)|
                #[trigger] cx2.drop_last().contains(x) <==> (cx.contains(x) && x.0 != param)
        }),
{
    let cx2 = exchange_to_end(cx, param, b).unwrap();
    let w = cx2.drop_last();
    let ns = binding_names(cx);
    if binds_name(cx, param) {
        let q = choose|q: int| 0 <= q < ns.len() && ns[q] == param;
        assert(cx[q].0 == param);
        let i = binding_position(cx, param);
        let n = cx.len() - 1;
        let f = |k: int| if k == n { i } else if k == i { n } else { k };
        assert forall|k: int| 0 <= k < cx2.len() implies #[trigger] cx2[k] == cx[f(k)] by {}
        assert(cx2.len() == cx.len());
        assert forall|k: int| 0 <= k < cx.len() implies cx2.contains(#[trigger] cx[k]) by {
            assert(cx2[f(k)] == cx[f(f(k))]);
        }
        assert forall|a: int, c: int|
            0 <= a < cx2.len() && 0 <= c < cx2.len() && a != c implies binding_names(cx2)[a]
            != binding_names(cx2)[c] by {
            assert(cx2[a] == cx[f(a)]);
            assert(cx2[c] == cx[f(c)]);
            assert(ns[f(a)] != ns[f(c)]);
        }
        assert(cx2.last() == cx[i]);
        assert forall|x: (Seq<char>, SBound)| #[trigger] w.contains(x) <==> (cx.contains(x)
            && x.0 != param) by {
            if w.contains(x) {
                let a = choose|a: int| 0 <= a < w.len() && w[a] == x;
                assert(cx2[a] == cx[f(a)]);
                assert(f(a) != i);
                assert(ns[f(a)] != ns[i]);
            }
            if cx.contains(x) && x.0 != param {
                let a = choose|a: int| 0 <= a < cx.len() && cx[a] == x;
                assert(a != i);
                assert(cx2[f(a)] == cx[a]);
                assert(f(a) != n);
                assert(w[f(a)] == x);
            }
        }
        if binds_name(w, param) {
            let a = choose|a: int| 0 <= a < binding_names(w).len() && binding_names(w)[a] == param;
            assert(cx2[a] == cx[f(a)]);
            assert(ns[f(a)] == ns[i]);
        }
    } else {
        assert(w =~= cx);
        assert forall|k: int| 0 <= k < cx.len() implies cx2.contains(#[trigger] cx[k]) by {
            assert(cx2[k] == cx[k]);
        }
        assert forall|a: int, c: int|
            0 <= a < cx2.len() && 0 <= c < cx2.len() && a != c implies binding_names(cx2)[a]
            != binding_names(cx2)[c] by {
            if a == cx.len() {
                assert(ns[c] == binding_names(cx2)[c]);
            } else if c == cx.len() {
                assert(ns[a] == binding_names(cx2)[a]);
            } else {
                assert(ns[a] == binding_names(cx2)[a]);
                assert(ns[c] == binding_names(cx2)[c]);
            }
        }
        assert forall|x: (Seq<char>, SBound)| #[trigger] w.contains(x) <==> (cx.contains(x)
            && x.0 != param) by {
            if cx.contains(x) {
                let a = choose|a: int| 0 <= a < cx.len() && cx[a] == x;
                assert(ns[a] == x.0);
            }
        }
    }
}

proof fn lemma_unique_drop_last(s: Seq<(Seq<char>, SBound)>)
    requires
        names_unique(binding_names(s)),
        s.len() > 0,
    ensures
        names_unique(binding_names(s.drop_last())),
{
    let d = s.drop_last();
    assert forall|a: int, c: int|
        0 <= a < d.len() && 0 <= c < d.len() && a != c implies binding_names(d)[a]
        != binding_names(d)[c] by {
        assert(binding_names(d)[a] == binding_names(s)[a]);
        assert(binding_names(d)[c] == binding_names(s)[c]);
    }
}

/// The type-formation judgement of a type holds, and its context is exactly
/// the type's free variables.
pub proof fn lemma_type_universe_wf(t: SType)
    ensures
        type_universe(t).ty == t,
        wf_universe(type_universe(t)),
        forall|n: Seq<char>| #[trigger] type_universe(t).context.contains(n) ==> free_in(t, n),
    decreases t,
{
    lemma_type_universe_type(t);
    match t {
        SType::Var(s) => {
            let c = type_universe(t).context;
            assert(c == seq![s]);
            assert(c[0] == s);
            assert forall|x: Seq<char>| free_in(type_universe(t).ty, x) implies c.contains(x) by {
                assert(type_universe(t).ty == t);
            }
        },
        SType::Arrow(a, b) => {
            lemma_type_universe_type(*a);
            lemma_type_universe_type(*b);
            lemma_type_universe_wf(*a);
            lemma_type_universe_wf(*b);
            crate::kernel::lemma_merge_names(type_universe(*a).context, type_universe(*b).context);
        },
        SType::Forall(p, b) => {
            lemma_type_universe_wf(*b);
            lemma_type_universe_type(*b);
            lemma_forall_spec(type_universe(*b), p);
        },
    }
}

/// Quantifying a type-formation judgement over `p` gives a judgement that
/// holds, of `forall p. A`, in the context of the original without `p`.
pub proof fn lemma_forall_spec(u: SUniverse, p: Seq<char>)
    requires
        wf_universe(u),
    ensures
        wf_universe(forall_spec(u, p)),
        forall_spec(u, p).ty == SType::Forall(p, Box::new(u.ty)),
        forall|n: Seq<char>| #[trigger]
            forall_spec(u, p).context.contains(n) <==> (u.context.contains(n) && n != p),
{
    let c = u.context;
    let r = forall_spec(u, p).context;
    if c.contains(p) {
        let i = position_of(c, p);
        let n = c.len() - 1;
        assert(r == c.update(i, c.last()).drop_last());
        assert forall|k: int| 0 <= k < r.len() implies #[trigger] r[k] == c[if k == i {
            n
        } else {
            k
        }] by {}
        assert forall|a: int, e: int| 0 <= a < r.len() && 0 <= e < r.len() && a != e implies r[a]
            != r[e] by {
            let sa = if a == i { n } else { a };
            let se = if e == i { n } else { e };
            assert(r[a] == c[sa]);
            assert(r[e] == c[se]);
        }
        assert forall|x: Seq<char>| #[trigger] r.contains(x) implies (c.contains(x) && x != p) by {
            let k = choose|k: int| 0 <= k < r.len() && r[k] == x;
            let sk = if k == i { n } else { k };
            assert(r[k] == c[sk]);
            assert(sk != i);
        }
        assert forall|x: Seq<char>| c.contains(x) && x != p implies #[trigger] r.contains(x) by {
            assert(c[i] == p);
            let k = choose|k: int| 0 <= k < c.len() && c[k] == x;
            assert(k != i);
            if k == n {
                assert(r[i] == x);
            } else {
                assert(r[k] == x);
            }
        }
    } else {
        assert forall|x: Seq<char>| #[trigger] r.contains(x) implies (c.contains(x) && x != p) by {}
    }
}

/// Whether `cx` binds `param` to something other than `b`.
pub open spec fn binds_otherwise(cx: Seq<(Seq<char>, SBound)>, param: Seq<char>, b: SBound) -> bool {
    exists|i: int| 0 <= i < cx.len() && (#[trigger] cx[i]).0 == param && cx[i].1 != b
}

proof fn lemma_exchange_some(cx: Seq<(Seq<char>, SBound)>, param: Seq<char>, b: SBound)
    requires
        names_unique(binding_names(cx)),
    ensures
        exchange_to_end(cx, param, b) is Some <==> !binds_otherwise(cx, param, b),
{
    if binds_name(cx, param) {
        let ns = binding_names(cx);
        let q = choose|q: int| 0 <= q < ns.len() && ns[q] == param;
        assert(cx[q].0 == param);
        let i = binding_position(cx, param);
        if binds_otherwise(cx, param, b) {
            let k = choose|k: int| 0 <= k < cx.len() && (#[trigger] cx[k]).0 == param && cx[k].1 != b;
            assert(ns[k] == ns[i]);
        }
    } else {
        if binds_otherwise(cx, param, b) {
            let k = choose|k: int| 0 <= k < cx.len() && (#[trigger] cx[k]).0 == param && cx[k].1 != b;
            assert(binding_names(cx)[k] == param);
        }
    }
}

/// Abstraction with automatic exchange succeeds exactly when the body does
/// not bind the parameter to something other than a term variable of the
/// given type; the result types `\\param. e` with `ty -> A`, in the body's
/// context without the parameter.
pub proof fn lemma_abs_inference(j: STyped, param: Seq<char>, ty: SType)
    requires
        derivable(j),
    ensures
        abs_spec(j, param, ty) is Some <==> !binds_otherwise(j.context, param, SBound::Var(ty)),
        abs_spec(j, param, ty) matches Some(r) ==> {
            &&& r.expr == crate::lang::SExpr::Abs(param, Box::new(j.expr))
            &&& r.ty == SType::Arrow(Box::new(ty), Box::new(j.ty))
            &&& r.context == exchange_to_end(j.context, param, SBound::Var(ty)).unwrap().drop_last()
            &&& forall|x: (Seq<char>, SBound)|
                #[trigger] r.context.contains(x) <==> (j.context.contains(x) && x.0 != param)
        },
{
    let cx = j.context;
    lemma_derivable_names_unique(j);
    lemma_exchange_some(cx, param, SBound::Var(ty));
    if let Some(cx2) = exchange_to_end(cx, param, SBound::Var(ty)) {
        lemma_exchange(cx, param, SBound::Var(ty));
        assert(rule_structural(j, cx2) is Some);
    }
}

/// Type abstraction with automatic exchange succeeds exactly when the body
/// binds the parameter, if at all, as a type variable, and no other binding
/// mentions it; the result has type `forall param. A`, in the body's context
/// without the parameter.
pub proof fn lemma_poly_abs_inference(j: STyped, param: Seq<char>)
    requires
        derivable(j),
    ensures
        poly_abs_spec(j, param) is Some <==> (!binds_otherwise(j.context, param, SBound::TypeVar)
            && forall|k: int|
            0 <= k < j.context.len() && j.context[k].0 != param ==> !bound_mentions(
                #[trigger] j.context[k].1,
                param,
            )),
        poly_abs_spec(j, param) matches Some(r) ==> {
            &&& r.expr == j.expr
            &&& r.ty == SType::Forall(param, Box::new(j.ty))
            &&& forall|x: (Seq<char>, SBound)|
                #[trigger] r.context.contains(x) <==> (j.context.contains(x) && x.0 != param)
        },
{
    let cx = j.context;
    lemma_derivable_names_unique(j);
    lemma_exchange_some(cx, param, SBound::TypeVar);
    if let Some(cx2) = exchange_to_end(cx, param, SBound::TypeVar) {
        lemma_exchange(cx, param, SBound::TypeVar);
        assert(rule_structural(j, cx2) is Some);
        let j2 = rule_structural(j, cx2).unwrap();
        let others = forall|k: int|
            0 <= k < cx.len() && cx[k].0 != param ==> !bound_mentions(#[trigger] cx[k].1, param);
        let checked = forall|i: int|
            0 <= i < cx2.len() - 1 ==> !bound_mentions(#[trigger] cx2[i].1, param);
        if others {
            assert forall|i: int| 0 <= i < cx2.len() - 1 implies !bound_mentions(
                #[trigger] cx2[i].1,
                param,
            ) by {
                assert(cx2.drop_last()[i] == cx2[i]);
                assert(cx2.drop_last().contains(cx2[i]));
                let k = choose|k: int| 0 <= k < cx.len() && cx[k] == cx2[i];
                assert(cx[k].0 != param);
            }
        }
        if checked {
            assert forall|k: int|
                0 <= k < cx.len() && cx[k].0 != param implies !bound_mentions(
                #[trigger] cx[k].1,
                param,
            ) by {
                assert(cx.contains(cx[k]));
                assert(cx2.drop_last().contains(cx[k]));
                let i = choose|i: int| 0 <= i < cx2.drop_last().len() && cx2.drop_last()[i] == cx[k];
                assert(cx2[i] == cx[k]);
            }
        }
        assert(rule_poly_abs(j2) is Some <==> checked);
    }
}

/// Application with automatic merging succeeds whenever the function and
/// the argument agree on the names that both bind and the argument has the
/// function's parameter type; the result lives in the union of the two
/// contexts.
pub proof fn lemma_app_inference(jf: STyped, ja: STyped, b: SType)
    requires
        derivable(jf),
        derivable(ja),
        jf.ty == SType::Arrow(Box::new(ja.ty), Box::new(b)),
        forall|i: int, k: int|
            0 <= i < jf.context.len() && 0 <= k < ja.context.len() && (#[trigger] jf.context[i]).0
                == (#[trigger] ja.context[k]).0 ==> jf.context[i].1 == ja.context[k].1,
    ensures
        app_spec(jf, ja) == Some(
            STyped {
                context: dedupe_bindings(jf.context + ja.context),
                expr: crate::lang::SExpr::App(Box::new(jf.expr), Box::new(ja.expr)),
                ty: b,
            },
        ),
{
    lemma_derivable_names_unique(jf);
    lemma_derivable_names_unique(ja);
    let s = jf.context + ja.context;
    let l1 = jf.context.len();
    let cx = dedupe_bindings(s);
    lemma_dedupe_unique(s);
    assert forall|k: int| 0 <= k < s.len() implies cx.contains(#[trigger] s[k]) by {
        lemma_dedupe_first(s, k);
        let j = choose|j: int| 0 <= j <= k && s[j].0 == s[k].0 && cx.contains(s[j]);
        if j < l1 && k < l1 {
            assert(binding_names(jf.context)[j] == binding_names(jf.context)[k]);
        } else if j >= l1 && k >= l1 {
            assert(binding_names(ja.context)[j - l1] == binding_names(ja.context)[k - l1]);
        } else {
            assert(jf.context[j] == s[j]);
            assert(ja.context[k - l1] == s[k]);
        }
    }
    assert forall|i: int| 0 <= i < jf.context.len() implies cx.contains(jf.context[i]) by {
        assert(s[i] == jf.context[i]);
    }
    assert forall|i: int| 0 <= i < ja.context.len() implies cx.contains(ja.context[i]) by {
        assert(s[l1 + i] == ja.context[i]);
    }
    assert(rule_structural(jf, cx) is Some);
    assert(rule_structural(ja, cx) is Some);
}

/// Type application with automatic merging succeeds whenever the function
/// has a quantified type, the substitution captures nothing, and the
/// function binds the type's variables, if at all, as type variables; the
/// result has the instantiated type, in the function's context extended with
/// the type's variables.
pub proof fn lemma_poly_app_inference(jf: STyped, u: SUniverse, p: Seq<char>, body: SType)
    requires
        derivable(jf),
        wf_universe(u),
        jf.ty == SType::Forall(p, Box::new(body)),
        crate::lang::capture_free(body, p, u.ty),
        forall|i: int, k: int|
            0 <= i < jf.context.len() && 0 <= k < u.context.len() && (#[trigger] jf.context[i]).0
                == #[trigger] u.context[k] ==> jf.context[i].1 == SBound::TypeVar,
    ensures
        poly_app_spec(jf, u) == Some(
            STyped {
                context: dedupe_bindings(jf.context + type_var_bindings(u.context)),
                expr: jf.expr,
                ty: crate::lang::subst(body, p, u.ty),
            },
        ),
{
    lemma_derivable_names_unique(jf);
    let tv = type_var_bindings(u.context);
    assert(binding_names(tv) =~= u.context);
    let s = jf.context + tv;
    let l1 = jf.context.len();
    let cx = dedupe_bindings(s);
    lemma_dedupe_unique(s);
    assert forall|k: int| 0 <= k < s.len() implies cx.contains(#[trigger] s[k]) by {
        lemma_dedupe_first(s, k);
        let j = choose|j: int| 0 <= j <= k && s[j].0 == s[k].0 && cx.contains(s[j]);
        if j < l1 && k < l1 {
            assert(binding_names(jf.context)[j] == binding_names(jf.context)[k]);
        } else if j >= l1 && k >= l1 {
            assert(binding_names(tv)[j - l1] == binding_names(tv)[k - l1]);
        } else {
            assert(jf.context[j] == s[j]);
            assert(tv[k - l1] == s[k]);
            assert(u.context[k - l1] == s[k].0);
        }
    }
    assert forall|i: int| 0 <= i < jf.context.len() implies cx.contains(jf.context[i]) by {
        assert(s[i] == jf.context[i]);
    }
    assert(rule_structural(jf, cx) is Some);
    assert forall|i: int| 0 <= i < u.context.len() implies cx.contains(
        (u.context[i], SBound::TypeVar),
    ) by {
        assert(s[l1 + i] == tv[i]);
    }
}

} // verus!
