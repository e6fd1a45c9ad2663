use typecheck::kernel::{Bound, Proof, Typed, Universe};
use typecheck::lang::{Expr, Type};

fn tv(s: &str) -> Proof<Universe> {
    Proof::type_var(s.to_string())
}

fn var(x: &str, t: &str) -> Proof<Typed> {
    Proof::var(x.to_string(), tv(t)).unwrap()
}

fn ctx(items: &[(&str, Option<Type>)]) -> Vec<(String, Bound)> {
    let mut out = Vec::new();
    for (s, t) in items {
        let b = match t {
            None => Bound::TypeVar,
            Some(t) => Bound::Var(t.copy()),
        };
        out.push((s.to_string(), b));
    }
    out
}

fn ty(s: &str) -> Type {
    Type::Var(s.to_string())
}

fn arrow(a: Type, b: Type) -> Type {
    Type::Arrow(Box::new(a), Box::new(b))
}

/// The identity at every type: `forall a. a -> a`.
fn poly_id() -> Proof<Typed> {
    var("x", "a").abs().unwrap().poly_abs().unwrap()
}

#[test]
fn var_binds_the_type_variables_then_the_term_variable() {
    let p = var("x", "A");
    assert_eq!(
        format!("{p:?}"),
        r#"Proof(Typed { context: [("A", TypeVar), ("x", Var(Var("A")))], expr: Var("x"), ty: Var("A") })"#
    );
}

#[test]
fn var_refuses_a_name_that_the_type_binds() {
    assert!(Proof::var("A".to_string(), tv("A")).is_err());
}

#[test]
fn arrow_merges_contexts_without_repeating_names() {
    let u = Proof::arrow(tv("A"), Proof::arrow(tv("B"), tv("A")));
    assert_eq!(
        format!("{u:?}"),
        r#"Proof(Universe { context: ["A", "B"], ty: Arrow(Var("A"), Arrow(Var("B"), Var("A"))) })"#
    );
}

#[test]
fn quantify_binds_the_last_type_variable() {
    let u = Proof::arrow(tv("A"), tv("B")).quantify().unwrap();
    assert_eq!(
        format!("{u:?}"),
        r#"Proof(Universe { context: ["A"], ty: Forall("B", Arrow(Var("A"), Var("B"))) })"#
    );
    let closed = u.quantify().unwrap();
    assert_eq!(closed.get().context.len(), 0);
    assert!(closed.quantify().is_err());
}

#[test]
fn structural_ty_needs_distinct_names_holding_the_old_ones() {
    let ok = tv("A").structural_ty(vec!["B".to_string(), "A".to_string()]).unwrap();
    assert_eq!(ok.get().context, vec!["B".to_string(), "A".to_string()]);
    assert!(tv("A").structural_ty(vec!["A".to_string(), "A".to_string()]).is_err());
    assert!(tv("A").structural_ty(vec!["B".to_string()]).is_err());
}

#[test]
fn app_needs_equal_contexts_and_matching_types() {
    let cx = ctx(&[
        ("A", None),
        ("B", None),
        ("f", Some(arrow(ty("A"), ty("B")))),
        ("x", Some(ty("A"))),
    ]);
    let f = Proof::var("f".to_string(), Proof::arrow(tv("A"), tv("B"))).unwrap();
    let f = f.structural(ctx(&[
        ("A", None),
        ("B", None),
        ("f", Some(arrow(ty("A"), ty("B")))),
        ("x", Some(ty("A"))),
    ]))
    .unwrap();
    let x = var("x", "A").structural(cx).unwrap();
    let fx = f.app(x).unwrap();
    assert_eq!(
        fx.get().expr,
        Expr::App(Box::new(Expr::Var("f".to_string())), Box::new(Expr::Var("x".to_string())))
    );
    assert_eq!(fx.get().ty, ty("B"));

    // contexts differ
    let f = Proof::var("f".to_string(), Proof::arrow(tv("A"), tv("B"))).unwrap();
    assert!(f.app(var("x", "A")).is_err());
    // argument of the wrong type
    let g = var("g", "A");
    assert!(var("y", "A").app(g).is_err());
}

#[test]
fn abs_pops_a_term_variable_only() {
    let id = var("x", "A").abs().unwrap();
    assert_eq!(
        format!("{id:?}"),
        r#"Proof(Typed { context: [("A", TypeVar)], expr: Abs("x", Var("x")), ty: Arrow(Var("A"), Var("A")) })"#
    );
    // the last binding is now a type variable
    assert!(id.abs().is_err());
}

#[test]
fn poly_abs_generalises_a_type_variable() {
    let p = poly_id();
    assert_eq!(
        format!("{p:?}"),
        r#"Proof(Typed { context: [], expr: Abs("x", Var("x")), ty: Forall("a", Arrow(Var("a"), Var("a"))) })"#
    );
    // nothing left to generalise or abstract
    assert!(poly_id().poly_abs().is_err());
    assert!(poly_id().abs().is_err());
}

#[test]
fn poly_abs_refuses_a_variable_still_used_in_the_context() {
    let p = var("y", "a").structural(ctx(&[("y", Some(ty("a"))), ("a", None)])).unwrap();
    assert!(p.poly_abs().is_err());
}

#[test]
fn poly_app_instantiates_a_bound_type_variable() {
    // the type's variables must be bound as type variables
    assert!(poly_id().poly_app(tv("B")).is_err());
    let f = poly_id().structural(ctx(&[("B", None)])).unwrap();
    let p = f.poly_app(tv("B")).unwrap();
    assert_eq!(p.get().ty, arrow(ty("B"), ty("B")));
    assert_eq!(p.get().expr, Expr::Abs("x".to_string(), Box::new(Expr::Var("x".to_string()))));
}

#[test]
fn poly_app_refuses_to_capture() {
    // K : forall a. forall b. a -> b -> a
    let x = var("x", "a")
        .structural(ctx(&[("a", None), ("b", None), ("x", Some(ty("a"))), ("y", Some(ty("b")))]))
        .unwrap();
    let k = x.abs().unwrap().abs().unwrap().poly_abs().unwrap().poly_abs().unwrap();
    assert_eq!(
        k.get().ty,
        Type::Forall(
            "a".to_string(),
            Box::new(Type::Forall(
                "b".to_string(),
                Box::new(arrow(ty("a"), arrow(ty("b"), ty("a"))))
            ))
        )
    );
    let k_b = k.structural(ctx(&[("b", None), ("c", None)])).unwrap();
    // instantiating `a` with `b` would capture it
    assert!(k_b.poly_app(tv("b")).is_err());

    let x = var("x", "a")
        .structural(ctx(&[("a", None), ("b", None), ("x", Some(ty("a"))), ("y", Some(ty("b")))]))
        .unwrap();
    let k = x.abs().unwrap().abs().unwrap().poly_abs().unwrap().poly_abs().unwrap();
    let k_c = k.structural(ctx(&[("c", None)])).unwrap();
    let p = k_c.poly_app(tv("c")).unwrap();
    assert_eq!(
        p.get().ty,
        Type::Forall("b".to_string(), Box::new(arrow(ty("c"), arrow(ty("b"), ty("c")))))
    );
}

#[test]
fn structural_needs_distinct_names_holding_the_old_bindings() {
    let p = var("x", "A");
    assert!(p.structural(ctx(&[("A", None), ("x", Some(ty("A"))), ("A", None)])).is_err());
    let p = var("x", "A");
    assert!(p.structural(ctx(&[("A", None), ("x", Some(ty("B")))])).is_err());
    let p = var("x", "A");
    assert!(p.structural(ctx(&[("x", Some(ty("A")))])).is_err());
    let p = var("x", "A");
    let q = p.structural(ctx(&[("x", Some(ty("A"))), ("B", None), ("A", None)])).unwrap();
    assert_eq!(
        format!("{q:?}"),
        r#"Proof(Typed { context: [("x", Var(Var("A"))), ("B", TypeVar), ("A", TypeVar)], expr: Var("x"), ty: Var("A") })"#
    );
}

#[test]
fn get_and_into_inner_give_the_judgement() {
    let p = var("x", "A");
    assert_eq!(p.get().expr, Expr::Var("x".to_string()));
    let t = p.into_inner();
    assert_eq!(t.ty, ty("A"));
    assert_eq!(t.context.len(), 2);
}

#[test]
fn substitution_and_capture_checks() {
    let t = Type::Forall("b".to_string(), Box::new(arrow(ty("a"), ty("b"))));
    let s = t.substitute(&"a".to_string(), &ty("c"));
    assert_eq!(s, Type::Forall("b".to_string(), Box::new(arrow(ty("c"), ty("b")))));
    assert!(t.substitution_is_capture_free(&"a".to_string(), &ty("c")));
    assert!(!t.substitution_is_capture_free(&"a".to_string(), &ty("b")));
    // a bound variable is not replaced
    let u = Type::Forall("a".to_string(), Box::new(ty("a")));
    assert_eq!(u.substitute(&"a".to_string(), &ty("c")), u);
    assert!(t.has_free(&"a".to_string()));
    assert!(!t.has_free(&"b".to_string()));
}

#[test]
fn an_exchange_of_the_context_can_be_undone() {
    let p = var("x", "A")
        .structural(ctx(&[("A", None), ("B", None), ("x", Some(ty("A")))]))
        .unwrap();
    let original = format!("{p:?}");
    let own = p.get().context.iter().map(|(s, b)| (s.clone(), b.copy())).collect::<Vec<_>>();
    let swapped = p
        .structural(ctx(&[("x", Some(ty("A"))), ("B", None), ("A", None)]))
        .unwrap();
    assert_eq!(
        format!("{:?}", swapped.get().context),
        r#"[("x", Var(Var("A"))), ("B", TypeVar), ("A", TypeVar)]"#
    );
    let back = swapped.structural(own).unwrap();
    assert_eq!(format!("{back:?}"), original);
}
