use std::sync::Arc;

use dada_model::env::Env;
use dada_model::grammar::{
    Binder, Block, ClassDecl, ClassDeclBoundData, ClassPredicate, DropBody, Ident, Kind, NamedTy,
    Parameter, ParameterPredicate, Perm, Place, Predicate, Program, Ty, TypeName, Var, Variable,
};
use dada_model::lien2::{lien_datas, liens, Data, Lien, LienSet};

fn ident(s: &str) -> Ident {
    Ident::from_str(s)
}

fn place(v: &str) -> Place {
    Place::from_var(Var::Id(ident(v)))
}

fn point() -> Ty {
    Ty::NamedTy(NamedTy { name: TypeName::Id(ident("Point")), parameters: vec![] })
}

/// `p: Point`.
fn env() -> Env {
    let class = ClassDecl {
        class_predicate: ClassPredicate::Given,
        name: ident("Point"),
        binder: Binder {
            kinds: vec![],
            term: ClassDeclBoundData {
                predicates: vec![],
                fields: vec![],
                methods: vec![],
                drop_body: DropBody { block: Block { statements: vec![] } },
            },
        },
    };
    let mut env = Env::new(Arc::new(Program { classes: vec![class] }));
    assert!(env.push_local_variable(Var::Id(ident("p")), point()).is_ok());
    env
}

fn perm(p: Perm) -> Parameter {
    Parameter::Perm(p)
}

fn has(s: &LienSet, f: impl Fn(&Lien) -> bool) -> bool {
    s.elements.iter().any(f)
}

#[test]
fn owned_and_shared_liens() {
    let env = env();
    let my = liens(&env, &perm(Perm::Given), 0);
    assert_eq!(my.len(), 1);
    assert!(my[0].elements.is_empty());
    let our = liens(&env, &perm(Perm::Shared), 0);
    assert_eq!(our.len(), 1);
    assert!(has(&our[0], |l| matches!(l, Lien::Copy)));
    let named = liens(&env, &Parameter::Ty(point()), 0);
    assert_eq!(named.len(), 1);
    assert!(named[0].elements.is_empty());
}

#[test]
fn liens_of_borrows() {
    let env = env();
    let shared = liens(&env, &perm(Perm::Rf(vec![place("p")])), 1);
    assert_eq!(shared.len(), 1);
    assert!(has(&shared[0], |l| matches!(l, Lien::Copy)));
    assert!(has(&shared[0], |l| matches!(l, Lien::Lent)));
    assert!(has(&shared[0], |l| matches!(l, Lien::Shared(q) if q.same(&place("p")))));
    let leased = liens(&env, &perm(Perm::Mt(vec![place("p")])), 1);
    assert_eq!(leased.len(), 1);
    assert!(!has(&leased[0], |l| matches!(l, Lien::Copy)));
    assert!(has(&leased[0], |l| matches!(l, Lien::Leased(_))));
    let moved = liens(&env, &perm(Perm::Mv(vec![place("p")])), 1);
    assert_eq!(moved.len(), 1);
    assert!(moved[0].elements.is_empty());
    // A place named twice counts once.
    assert_eq!(liens(&env, &perm(Perm::Rf(vec![place("p"), place("p")])), 1).len(), 1);
    // No type, or no fuel: no lien set can be derived.
    assert_eq!(liens(&env, &perm(Perm::Rf(vec![place("nobody")])), 1).len(), 0);
    assert_eq!(liens(&env, &perm(Perm::Rf(vec![place("p")])), 0).len(), 0);
}

#[test]
fn applying_to_copy_may_forget() {
    let env = env();
    let lease_then_share = Perm::Apply(Box::new(Perm::Mt(vec![place("p")])), Box::new(Perm::Shared));
    let outcomes = liens(&env, &perm(lease_then_share), 1);
    assert_eq!(outcomes.len(), 2);
    // Either `our` alone, or `our` together with the lease.
    assert!(outcomes.iter().any(|s| has(s, |l| matches!(l, Lien::Copy)) && !has(s, |l| matches!(l, Lien::Leased(_)))));
    assert!(outcomes.iter().any(|s| has(s, |l| matches!(l, Lien::Copy)) && has(s, |l| matches!(l, Lien::Leased(_)))));
    let either = liens(&env, &perm(Perm::Or(vec![Perm::Given, Perm::Shared])), 0);
    assert_eq!(either.len(), 1);
    assert!(has(&either[0], |l| matches!(l, Lien::Copy)));
}

#[test]
fn variables_may_be_owned() {
    let mut env = env();
    let vars = env.open_universal_vars(&vec![Kind::Perm]);
    let v = Parameter::Perm(Perm::Var(Variable::UniversalVar(vars[0])));
    assert_eq!(liens(&env, &v, 0).len(), 1);
    env.add_assumptions(vec![
        Predicate::Parameter(ParameterPredicate::Owned, v.copy()),
        Predicate::Parameter(ParameterPredicate::Move, v.copy()),
    ]);
    let outcomes = liens(&env, &v, 0);
    assert_eq!(outcomes.len(), 2);
    assert!(outcomes.iter().any(|s| s.elements.is_empty()));
}

#[test]
fn lien_sets_of_typed_data() {
    let env = env();
    let none = LienSet { elements: vec![] };
    let shared_point = Parameter::Ty(Ty::ApplyPerm(Perm::Shared, Box::new(point())));
    let datas = lien_datas(&env, &none, &shared_point, 0);
    assert!(!datas.is_empty());
    for d in &datas {
        assert!(has(&d.liens, |l| matches!(l, Lien::Copy)));
        assert!(matches!(d.data, Data::NamedTy(_)));
    }
    let datas = lien_datas(&env, &none, &perm(Perm::Mt(vec![place("p")])), 1);
    assert_eq!(datas.len(), 1);
    assert!(matches!(datas[0].data, Data::NoData));
    assert!(has(&datas[0].liens, |l| matches!(l, Lien::Leased(_))));
}
