use typecheck::ast::TypedEv;
use typecheck::derivations::{
    abs, app, forall_type, poly_abs, poly_app, verify, ContextIndex, Error, RecordedProof,
};
use typecheck::kernel::{Bound, Proof, Typed, Universe};
use typecheck::lang::{Expr, Type};

fn ty(s: &str) -> Type {
    Type::Var(s.to_string())
}

fn arrow(a: Type, b: Type) -> Type {
    Type::Arrow(Box::new(a), Box::new(b))
}

fn tv(s: &str) -> Proof<Universe> {
    Proof::type_var(s.to_string())
}

fn var(x: &str, t: Type) -> Proof<Typed> {
    let rp = RecordedProof::var(x.to_string(), &t).unwrap();
    rp.into_inner().1
}

fn ev_var(s: &str) -> TypedEv {
    TypedEv::Var(s.to_string())
}

fn index(binds: Vec<(&str, Bound)>) -> ContextIndex {
    ContextIndex::new(binds.into_iter().map(|(s, b)| (s.to_string(), b)).collect()).unwrap()
}

#[test]
fn forall_type_moves_the_parameter_out_of_the_context() {
    let u = forall_type(Proof::arrow(tv("a"), tv("b")), "a".to_string());
    assert_eq!(
        format!("{u:?}"),
        r#"Proof(Universe { context: ["b"], ty: Forall("a", Arrow(Var("a"), Var("b"))) })"#
    );
    let u = forall_type(Proof::arrow(tv("a"), tv("b")), "c".to_string());
    assert_eq!(
        format!("{u:?}"),
        r#"Proof(Universe { context: ["a", "b"], ty: Forall("c", Arrow(Var("a"), Var("b"))) })"#
    );
    // the last name takes the place of the quantified one
    let u3 = Proof::arrow(tv("a"), Proof::arrow(tv("b"), tv("c")));
    let u = forall_type(u3, "a".to_string());
    assert_eq!(u.get().context, vec!["c".to_string(), "b".to_string()]);
}

#[test]
fn context_index_refuses_unbound_type_variables() {
    let r = ContextIndex::new(vec![("x".to_string(), Bound::Var(ty("A")))]);
    assert!(r.is_err());
    let r = ContextIndex::new(vec![
        ("A".to_string(), Bound::TypeVar),
        ("x".to_string(), Bound::Var(ty("A"))),
    ]);
    assert!(r.is_ok());
    // a type variable must be bound before the term variable that uses it
    let r = ContextIndex::new(vec![
        ("x".to_string(), Bound::Var(ty("A"))),
        ("A".to_string(), Bound::TypeVar),
    ]);
    assert!(r.is_err());
}

#[test]
fn app_merges_the_contexts_of_function_and_argument() {
    let f = var("f", arrow(ty("A"), ty("B")));
    let x = var("x", ty("A"));
    let p = app(f, x).unwrap();
    assert_eq!(
        format!("{p:?}"),
        r#"Proof(Typed { context: [("A", TypeVar), ("B", TypeVar), ("f", Var(Arrow(Var("A"), Var("B")))), ("x", Var(Var("A")))], expr: App(Var("f"), Var("x")), ty: Var("B") }"#
            .to_string()
            + ")"
    );
}

#[test]
fn app_refuses_disagreeing_bindings() {
    let f = var("f", arrow(ty("A"), ty("B")));
    let f2 = var("f", ty("A"));
    assert_eq!(app(f, f2).unwrap_err(), app(var("x", ty("A")), var("y", ty("A"))).unwrap_err());
}

#[test]
fn abs_moves_the_parameter_from_anywhere_in_the_context() {
    let f = var("f", arrow(ty("A"), ty("B")));
    let x = var("x", ty("A"));
    let fx = app(f, x).unwrap();
    // `f` sits in the middle of the context
    let p = abs(fx, "f".to_string(), arrow(ty("A"), ty("B"))).unwrap();
    assert_eq!(
        format!("{p:?}"),
        r#"Proof(Typed { context: [("A", TypeVar), ("B", TypeVar), ("x", Var(Var("A")))], expr: Abs("f", App(Var("f"), Var("x"))), ty: Arrow(Arrow(Var("A"), Var("B")), Var("B")) })"#
    );
    // a parameter that is not used is added
    let q = abs(var("x", ty("A")), "y".to_string(), ty("C")).unwrap();
    assert_eq!(q.get().ty, arrow(ty("C"), ty("A")));
    // only the parameter's binding is added, and it leaves with the abstraction
    assert_eq!(
        format!("{:?}", q.get().context),
        r#"[("A", TypeVar), ("x", Var(Var("A")))]"#
    );
    // an annotation may use the parameter's own name
    let r = abs(var("x", ty("B")), "A".to_string(), ty("A")).unwrap();
    assert_eq!(r.get().ty, arrow(ty("A"), ty("B")));
    // a parameter bound at another type is refused
    assert!(abs(var("x", ty("A")), "x".to_string(), ty("B")).is_err());
}

#[test]
fn poly_abs_and_poly_app_infer_the_context() {
    let id = abs(var("x", ty("a")), "x".to_string(), ty("a")).unwrap();
    let pid = poly_abs(id, "a".to_string()).unwrap();
    assert_eq!(pid.get().ty, Type::Forall("a".to_string(), Box::new(arrow(ty("a"), ty("a")))));
    assert_eq!(pid.get().context.len(), 0);
    let inst = poly_app(pid, tv("B")).unwrap();
    assert_eq!(
        format!("{inst:?}"),
        r#"Proof(Typed { context: [("B", TypeVar)], expr: Abs("x", Var("x")), ty: Arrow(Var("B"), Var("B")) })"#
    );
    // a type variable still used by a term variable cannot be generalised
    assert!(poly_abs(var("x", ty("a")), "a".to_string()).is_err());
}

#[test]
fn verify_checks_type_abstraction_and_application() {
    let ev = TypedEv::PolyApp(
        Box::new(TypedEv::PolyAbs(
            "a".to_string(),
            Box::new(TypedEv::Abs("x".to_string(), ty("a"), Box::new(ev_var("x")))),
        )),
        ty("B"),
    );
    // the type argument's variables must be bound in the index
    let mut cx = index(vec![]);
    assert!(verify(&ev, &mut cx).is_err());
    let mut cx = index(vec![("B", Bound::TypeVar)]);
    let p = verify(&ev, &mut cx).unwrap();
    assert_eq!(
        format!("{p:?}"),
        r#"Proof(Typed { context: [("B", TypeVar)], expr: Abs("x", Var("x")), ty: Arrow(Var("B"), Var("B")) })"#
    );
}

#[test]
fn verify_leaves_the_index_unchanged_even_on_failure() {
    let mut cx = index(vec![("A", Bound::TypeVar)]);
    let bad = TypedEv::Abs("x".to_string(), ty("A"), Box::new(ev_var("y")));
    assert!(verify(&bad, &mut cx).is_err());
    // `x` was bound only while checking the body
    assert!(verify(&ev_var("x"), &mut cx).is_err());
    let good = TypedEv::Abs("x".to_string(), ty("A"), Box::new(ev_var("x")));
    let p1 = verify(&good, &mut cx).unwrap();
    let p2 = verify(&good, &mut cx).unwrap();
    assert_eq!(format!("{p1:?}"), format!("{p2:?}"));
}

#[test]
fn verify_refuses_unbound_names() {
    let mut cx = index(vec![]);
    assert!(verify(&ev_var("x"), &mut cx).is_err());
    let ev = TypedEv::Abs("x".to_string(), ty("A"), Box::new(ev_var("x")));
    assert!(verify(&ev, &mut cx).is_err());
    let mut cx = index(vec![("A", Bound::TypeVar)]);
    assert!(verify(&ev_var("A"), &mut cx).is_err());
}

#[test]
fn verified_term_is_the_erased_evidence() {
    let ev = TypedEv::PolyAbs(
        "a".to_string(),
        Box::new(TypedEv::Abs("x".to_string(), ty("a"), Box::new(ev_var("x")))),
    );
    let mut cx = index(vec![]);
    let p = verify(&ev, &mut cx).unwrap();
    assert_eq!(p.get().expr, Expr::Abs("x".to_string(), Box::new(Expr::Var("x".to_string()))));
}

#[test]
fn recorded_proofs_record_evidence_and_proof() {
    let f = RecordedProof::var("f".to_string(), &arrow(ty("A"), ty("B"))).unwrap();
    let x = RecordedProof::var("x".to_string(), &ty("A")).unwrap();
    assert!(f.consistent().is_ok());
    assert!(x.consistent().is_ok());
    let fx = f.app(x).unwrap();
    assert_eq!(format!("{:?}", fx.evidence()), r#"App(Var("f"), Var("x"))"#);
    assert_eq!(fx.typing_proof().get().ty, ty("B"));
    assert!(fx.consistent().is_ok());
    let l = fx.abs("x".to_string(), ty("A")).unwrap();
    assert!(l.consistent().is_ok());
    let (ev, p) = l.into_inner();
    assert_eq!(
        format!("{ev:?}"),
        r#"Abs("x", Var("A"), App(Var("f"), Var("x")))"#
    );
    assert_eq!(p.get().ty, arrow(ty("A"), ty("B")));
    assert!(RecordedProof::var("A".to_string(), &ty("A")).is_err());
}

#[test]
fn recorded_show_checks_evidence() {
    let mut cx = index(vec![("A", Bound::TypeVar)]);
    let rp = RecordedProof::show(
        TypedEv::Abs("x".to_string(), ty("A"), Box::new(ev_var("x"))),
        &mut cx,
    )
    .unwrap();
    assert!(rp.consistent().is_ok());
    assert!(RecordedProof::show(ev_var("x"), &mut cx).is_err());
}

#[test]
fn consistency_fails_when_exchange_reorders_a_binding_before_its_type() {
    // \x : B -> C. x (k z): abstracting `x` swaps `z : E` ahead of `E`
    let mut cx = index(vec![
        ("B", Bound::TypeVar),
        ("C", Bound::TypeVar),
        ("E", Bound::TypeVar),
        ("k", Bound::Var(arrow(ty("E"), ty("B")))),
        ("z", Bound::Var(ty("E"))),
    ]);
    let ev = TypedEv::Abs(
        "x".to_string(),
        arrow(ty("B"), ty("C")),
        Box::new(TypedEv::App(
            Box::new(ev_var("x")),
            Box::new(TypedEv::App(Box::new(ev_var("k")), Box::new(ev_var("z")))),
        )),
    );
    let rp = RecordedProof::show(ev, &mut cx).unwrap();
    assert_eq!(
        format!("{:?}", rp.typing_proof().get().context),
        r#"[("B", TypeVar), ("C", TypeVar), ("z", Var(Var("E"))), ("E", TypeVar), ("k", Var(Arrow(Var("E"), Var("B"))))]"#
    );
    assert!(rp.consistent().is_err());
}

#[test]
fn kernel_refusals_become_derivation_errors() {
    let step = Proof::var("A".to_string(), tv("A")).unwrap_err();
    let e: Error = Error::from(step);
    assert_eq!(e, abs(var("x", ty("A")), "x".to_string(), ty("B")).unwrap_err());
    assert_eq!(e.clone(), e);
}

#[test]
fn consistency_fails_when_an_unused_parameter_type_is_dropped() {
    let mut cx = index(vec![
        ("A", Bound::TypeVar),
        ("B", Bound::TypeVar),
        ("y", Bound::Var(ty("B"))),
    ]);
    let rp = RecordedProof::show(
        TypedEv::Abs("x".to_string(), ty("A"), Box::new(ev_var("y"))),
        &mut cx,
    )
    .unwrap();
    assert_eq!(rp.typing_proof().get().ty, arrow(ty("A"), ty("B")));
    assert_eq!(
        format!("{:?}", rp.typing_proof().get().context),
        r#"[("B", TypeVar), ("y", Var(Var("B")))]"#
    );
    assert!(rp.consistent().is_err());
}

#[test]
fn term_variables_of_a_verified_context_come_from_the_index() {
    let mut cx = index(vec![
        ("A", Bound::TypeVar),
        ("f", Bound::Var(arrow(ty("A"), ty("A")))),
        ("x", Bound::Var(ty("A"))),
    ]);
    let ev = TypedEv::App(Box::new(ev_var("f")), Box::new(ev_var("x")));
    let p = verify(&ev, &mut cx).unwrap();
    assert_eq!(
        format!("{:?}", p.get().context),
        r#"[("A", TypeVar), ("f", Var(Arrow(Var("A"), Var("A")))), ("x", Var(Var("A")))]"#
    );
}

#[test]
fn type_application_refuses_a_type_argument_outside_the_index() {
    let ev = TypedEv::PolyApp(
        Box::new(TypedEv::PolyAbs("a".to_string(), Box::new(ev_var("x")))),
        ty("C"),
    );
    let mut cx = index(vec![("A", Bound::TypeVar), ("x", Bound::Var(ty("A")))]);
    assert!(verify(&ev, &mut cx).is_err());
    let mut cx = index(vec![
        ("A", Bound::TypeVar),
        ("C", Bound::TypeVar),
        ("x", Bound::Var(ty("A"))),
    ]);
    let p = verify(&ev, &mut cx).unwrap();
    assert_eq!(
        format!("{:?}", p.get().context),
        r#"[("A", TypeVar), ("x", Var(Var("A"))), ("C", TypeVar)]"#
    );
}

#[test]
fn copies_keep_the_judgement() {
    let p = var("x", arrow(ty("A"), ty("B")));
    let q = p.copy();
    assert_eq!(format!("{p:?}"), format!("{q:?}"));
    let t: Typed = p.into_inner();
    let t2 = t.copy();
    assert_eq!(t, t2);
    let e = Expr::App(
        Box::new(Expr::Var("f".to_string())),
        Box::new(Expr::Abs("y".to_string(), Box::new(Expr::Var("y".to_string())))),
    );
    assert_eq!(e.copy(), e);
}

#[test]
fn abs_swaps_the_parameter_with_the_last_binding() {
    let x = var("x", ty("A"));
    let moved = x
        .structural(vec![
            ("x".to_string(), Bound::Var(ty("A"))),
            ("A".to_string(), Bound::TypeVar),
            ("B".to_string(), Bound::TypeVar),
        ])
        .unwrap();
    let p = abs(moved, "x".to_string(), ty("A")).unwrap();
    assert_eq!(format!("{:?}", p.get().context), r#"[("B", TypeVar), ("A", TypeVar)]"#);
    let t = poly_abs(
        Proof::var("y".to_string(), tv("B"))
            .unwrap()
            .structural(vec![
                ("B".to_string(), Bound::TypeVar),
                ("C".to_string(), Bound::TypeVar),
                ("y".to_string(), Bound::Var(ty("B"))),
                ("D".to_string(), Bound::TypeVar),
            ])
            .unwrap(),
        "C".to_string(),
    )
    .unwrap();
    assert_eq!(
        format!("{:?}", t.get().context),
        r#"[("B", TypeVar), ("D", TypeVar), ("y", Var(Var("B")))]"#
    );
}

#[test]
fn consistency_holds_when_the_context_stays_scoped() {
    let mut cx = index(vec![
        ("A", Bound::TypeVar),
        ("B", Bound::TypeVar),
        ("y", Bound::Var(ty("B"))),
    ]);
    let rp = RecordedProof::show(
        TypedEv::Abs("x".to_string(), ty("B"), Box::new(ev_var("y"))),
        &mut cx,
    )
    .unwrap();
    assert_eq!(rp.typing_proof().get().ty, arrow(ty("B"), ty("B")));
    assert!(rp.consistent().is_ok());
}
