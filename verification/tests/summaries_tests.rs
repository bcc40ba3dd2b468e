use std::sync::Arc;

use dada_model::env::Env;
use dada_model::grammar::{
    Binder, Block, ClassDecl, ClassDeclBoundData, ClassPredicate, DropBody, Ident, Kind, NamedTy,
    Parameter, Perm, Place, Program, Ty, TypeName, Var, Variable,
};
use dada_model::perms::{Perms, TyData};
use dada_model::summaries::{lien_datas, perms, perms_is_copy, perms_is_leased, perms_is_moved};

fn ident(s: &str) -> Ident {
    Ident::from_str(s)
}

fn place(v: &str) -> Place {
    Place::from_var(Var::Id(ident(v)))
}

fn point() -> Ty {
    Ty::NamedTy(NamedTy { name: TypeName::Id(ident("Point")), parameters: vec![] })
}

/// `p: Point`, `s: shared Point`.
fn env() -> Env {
    let class = ClassDecl {
        class_predicate: ClassPredicate::Given,
        name: ident("Point"),
        binder: Binder {
            kinds: vec![],
            term: ClassDeclBoundData {
                predicates: vec![],
                fields: vec![],
                methods: vec![],
                drop_body: DropBody { block: Block { statements: vec![] } },
            },
        },
    };
    let mut env = Env::new(Arc::new(Program { classes: vec![class] }));
    assert!(env.push_local_variable(Var::Id(ident("p")), point()).is_ok());
    assert!(env.push_local_variable(Var::Id(ident("s")), Ty::ApplyPerm(Perm::Shared, Box::new(point()))).is_ok());
    env
}

fn perm(p: Perm) -> Parameter {
    Parameter::Perm(p)
}

fn is_empty(p: &Perms) -> bool {
    p.shared_from.is_empty() && p.leased_from.is_empty() && p.variables.is_empty()
}

#[test]
fn owned_and_shared_summaries() {
    let env = env();
    let my = perms(&env, &perm(Perm::Given), 0).unwrap();
    assert!(!my.copied && is_empty(&my));
    let our = perms(&env, &perm(Perm::Shared), 0).unwrap();
    assert!(our.copied && is_empty(&our));
    let named = perms(&env, &Parameter::Ty(point()), 0).unwrap();
    assert!(!named.copied && is_empty(&named));
    assert!(perms_is_copy(&env, &perm(Perm::Shared), 0));
    assert!(!perms_is_copy(&env, &perm(Perm::Given), 0));
    assert!(perms_is_moved(&env, &perm(Perm::Given), 0));
    assert!(!perms_is_moved(&env, &perm(Perm::Shared), 0));
}

#[test]
fn summaries_of_borrows() {
    let env = env();
    let shared = perms(&env, &perm(Perm::Rf(vec![place("p")])), 1).unwrap();
    assert!(shared.copied);
    assert_eq!(shared.shared_from.len(), 1);
    assert!(shared.shared_from[0].same(&place("p")));
    assert!(shared.leased_from.is_empty());
    let leased = perms(&env, &perm(Perm::Mt(vec![place("p")])), 1).unwrap();
    assert!(!leased.copied);
    assert_eq!(leased.leased_from.len(), 1);
    assert!(perms_is_leased(&env, &perm(Perm::Mt(vec![place("p")])), 1));
    let moved = perms(&env, &perm(Perm::Mv(vec![place("p")])), 1).unwrap();
    assert!(!moved.copied && is_empty(&moved));
    // Sharing from a place whose type is already shared is just `our`.
    let through = perms(&env, &perm(Perm::Rf(vec![place("s")])), 1).unwrap();
    assert!(through.copied && is_empty(&through));
    // Missing places and exhausted fuel give no summary.
    assert!(perms(&env, &perm(Perm::Rf(vec![place("nobody")])), 1).is_none());
    assert!(perms(&env, &perm(Perm::Rf(vec![place("p")])), 0).is_none());
}

#[test]
fn summaries_of_compositions() {
    let env = env();
    let either = perms(&env, &perm(Perm::Or(vec![Perm::Given, Perm::Mt(vec![place("p")])])), 1).unwrap();
    assert!(!either.copied);
    assert_eq!(either.leased_from.len(), 1);
    let lease_then_share = Perm::Apply(Box::new(Perm::Mt(vec![place("p")])), Box::new(Perm::Shared));
    let shared = perms(&env, &perm(lease_then_share), 1).unwrap();
    assert!(shared.copied && is_empty(&shared));
    let my_then_lease = Perm::Apply(Box::new(Perm::Given), Box::new(Perm::Mt(vec![place("p")])));
    let leased = perms(&env, &perm(my_then_lease), 1).unwrap();
    assert!(!leased.copied);
    assert_eq!(leased.leased_from.len(), 1);
}

#[test]
fn summaries_of_variables() {
    let mut env = env();
    let vars = env.open_universal_vars(&vec![Kind::Perm]);
    let v = perms(&env, &perm(Perm::Var(Variable::UniversalVar(vars[0]))), 0).unwrap();
    assert!(!v.copied);
    assert_eq!(v.variables.len(), 1);
}

#[test]
fn lien_data_of_types() {
    let env = env();
    let my = Perms::my();
    let shared_point = Parameter::Ty(Ty::ApplyPerm(Perm::Shared, Box::new(point())));
    let ld = lien_datas(&env, &my, &shared_point, 0).unwrap();
    assert!(ld.perms.copied);
    assert!(matches!(ld.data, TyData::NamedTy(_)));
    let ld = lien_datas(&env, &my, &perm(Perm::Mt(vec![place("p")])), 1).unwrap();
    assert!(matches!(ld.data, TyData::NoData));
    assert_eq!(ld.perms.leased_from.len(), 1);
    assert!(lien_datas(&env, &my, &perm(Perm::Mt(vec![place("nobody")])), 1).is_none());
}
