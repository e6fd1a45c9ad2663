//! Evidence of typing judgements: derivations that can be stored, sent and
//! later verified by the kernel without trusting their source.
use vstd::prelude::*;

use crate::lang::{SExpr, SType, Type};

verus! {

/// Evidence of a typing judgement, intended to produce a kernel proof.
///
/// All proofs are built by the inference rules of the kernel, so the only
/// consequence of invalid evidence is that checking it fails.
/// Contexts are built on demand while checking, so the evidence need not
/// repeat the context at every step.
#[derive(Debug, PartialEq, Eq)]
pub enum TypedEv {
    Var(String),
    App(Box<TypedEv>, Box<TypedEv>),
    Abs(String, Type, Box<TypedEv>),
    PolyAbs(String, Box<TypedEv>),
    PolyApp(Box<TypedEv>, Type),
}

/// Model of evidence.
pub enum SEv {
    Var(Seq<char>),
    App(Box<SEv>, Box<SEv>),
    Abs(Seq<char>, SType, Box<SEv>),
    PolyAbs(Seq<char>, Box<SEv>),
    PolyApp(Box<SEv>, SType),
}

pub open spec fn ev_model(e: TypedEv) -> SEv
    decreases e,
{
    match e {
        TypedEv::Var(s) => SEv::Var(s@),
        TypedEv::App(f, a) => SEv::App(Box::new(ev_model(*f)), Box::new(ev_model(*a))),
        TypedEv::Abs(s, t, b) => SEv::Abs(s@, t@, Box::new(ev_model(*b))),
        TypedEv::PolyAbs(s, b) => SEv::PolyAbs(s@, Box::new(ev_model(*b))),
        TypedEv::PolyApp(f, t) => SEv::PolyApp(Box::new(ev_model(*f)), t@),
    }
}

impl View for TypedEv {
    type V = SEv;

    open spec fn view(&self) -> SEv {
        ev_model(*self)
    }
}

/// The term that evidence types: the evidence with its type annotations,
/// type abstractions and type applications erased.
pub open spec fn erase(e: SEv) -> SExpr
    decreases e,
{
    match e {
        SEv::Var(s) => SExpr::Var(s),
        SEv::App(f, a) => SExpr::App(Box::new(erase(*f)), Box::new(erase(*a))),
        SEv::Abs(s, _, b) => SExpr::Abs(s, Box::new(erase(*b))),
        SEv::PolyAbs(_, b) => erase(*b),
        SEv::PolyApp(f, _) => erase(*f),
    }
}

impl TypedEv {
    /// A copy of the evidence with the same model.
    pub fn copy(&self) -> (r: TypedEv)
        ensures
            r@ == self@,
        decreases self,
    {
        match self {
            TypedEv::Var(s) => TypedEv::Var(crate::lang::name_copy(s)),
            TypedEv::App(f, a) => TypedEv::App(Box::new(f.copy()), Box::new(a.copy())),
            TypedEv::Abs(s, t, b) => TypedEv::Abs(
                crate::lang::name_copy(s),
                t.copy(),
                Box::new(b.copy()),
            ),
            TypedEv::PolyAbs(s, b) => TypedEv::PolyAbs(
                crate::lang::name_copy(s),
                Box::new(b.copy()),
            ),
            TypedEv::PolyApp(f, t) => TypedEv::PolyApp(Box::new(f.copy()), t.copy()),
        }
    }
}

} // verus!
