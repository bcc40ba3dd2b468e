use std::sync::Arc;

use dada_model::env::Env;
use dada_model::errors::TypeError;
use dada_model::grammar::{
    Binder, Block, ClassDecl, ClassDeclBoundData, ClassPredicate, DropBody, Ident, Kind, NamedTy,
    Parameter, ParameterPredicate, Perm, Place, Predicate, Program, Ty, TypeName, Var, Variable,
};
use dada_model::predicates::{
    check_predicates, prove_is_copy, prove_is_given, prove_is_move, prove_is_owned,
    prove_is_shareable, prove_isnt_known_to_be_copy, prove_predicate, prove_predicates,
};

fn ident(s: &str) -> Ident {
    Ident::from_str(s)
}

fn class(name: &str, cp: ClassPredicate) -> ClassDecl {
    ClassDecl {
        class_predicate: cp,
        name: ident(name),
        binder: Binder {
            kinds: vec![],
            term: ClassDeclBoundData {
                predicates: vec![],
                fields: vec![],
                methods: vec![],
                drop_body: DropBody { block: Block { statements: vec![] } },
            },
        },
    }
}

fn env() -> Env {
    let program = Program {
        classes: vec![
            class("Given", ClassPredicate::Given),
            class("Share", ClassPredicate::Share),
            class("Shared", ClassPredicate::Shared),
        ],
    };
    Env::new(Arc::new(program))
}

fn named(name: &str) -> Parameter {
    Parameter::Ty(Ty::NamedTy(NamedTy { name: TypeName::Id(ident(name)), parameters: vec![] }))
}

fn int_param() -> Parameter {
    Parameter::Ty(Ty::NamedTy(NamedTy { name: TypeName::Int, parameters: vec![] }))
}

fn perm(p: Perm) -> Parameter {
    Parameter::Perm(p)
}

#[test]
fn permission_predicates() {
    let env = env();
    assert!(prove_is_copy(&env, &perm(Perm::Shared), 1));
    assert!(!prove_is_copy(&env, &perm(Perm::Given), 1));
    assert!(prove_is_move(&env, &perm(Perm::Given), 1));
    assert!(prove_is_owned(&env, &perm(Perm::Given), 1));
    assert!(prove_is_given(&env, &perm(Perm::Given), 1));
    assert!(!prove_is_given(&env, &perm(Perm::Shared), 1));
    assert!(prove_isnt_known_to_be_copy(&env, &perm(Perm::Given), 1));
}

#[test]
fn a_reference_is_always_copy() {
    let env = env();
    let x = Place::from_var(Var::Id(ident("x")));
    assert!(prove_is_copy(&env, &perm(Perm::Rf(vec![x])), 0));
}

#[test]
fn class_predicates_decide_copy_and_move() {
    let env = env();
    assert!(prove_is_copy(&env, &named("Shared"), 1));
    assert!(!prove_is_copy(&env, &named("Given"), 1));
    assert!(prove_is_move(&env, &named("Given"), 1));
    assert!(!prove_is_move(&env, &named("Shared"), 1));
    assert!(prove_is_owned(&env, &named("Given"), 1));
    assert!(prove_is_copy(&env, &int_param(), 1));
    assert!(prove_is_shareable(&env, &named("Share"), 1));
    assert!(!prove_is_shareable(&env, &named("Given"), 1));
    // An unknown class meets no predicate.
    assert!(!prove_is_owned(&env, &named("Missing"), 1));
}

#[test]
fn shared_applied_to_a_class_is_copy() {
    let env = env();
    let ty = Parameter::Ty(Ty::ApplyPerm(Perm::Shared, Box::new(Ty::NamedTy(NamedTy {
        name: TypeName::Id(ident("Given")),
        parameters: vec![],
    }))));
    assert!(prove_is_copy(&env, &ty, 1));
    assert!(prove_is_shareable(&env, &ty, 1));
}

#[test]
fn assumptions_are_provable() {
    let mut env = env();
    let vars = env.open_universal_vars(&vec![Kind::Ty, Kind::Perm]);
    let t = Parameter::Ty(Ty::Var(Variable::UniversalVar(vars[0])));
    let p = Parameter::Perm(Perm::Var(Variable::UniversalVar(vars[1])));
    assert!(!prove_is_copy(&env, &t, 1));
    env.add_assumptions(vec![
        Predicate::Parameter(ParameterPredicate::Copy, Parameter::Ty(Ty::Var(Variable::UniversalVar(vars[0])))),
        Predicate::Parameter(ParameterPredicate::Mut, Parameter::Perm(Perm::Var(Variable::UniversalVar(vars[1])))),
    ]);
    assert!(prove_is_copy(&env, &t, 1));
    // `mut` implies `move`.
    assert!(prove_is_move(&env, &p, 1));
    assert!(!prove_is_copy(&env, &p, 1));
}

#[test]
fn copy_and_owned_make_shared() {
    let env = env();
    let shared = Predicate::Parameter(ParameterPredicate::Shared, named("Shared"));
    assert!(prove_predicate(&env, &shared, 1));
    let not_shared = Predicate::Parameter(ParameterPredicate::Shared, named("Given"));
    assert!(!prove_predicate(&env, &not_shared, 1));
    assert!(prove_predicates(&env, &vec![shared], 1));
    assert!(!prove_predicates(&env, &vec![not_shared], 1));
}

#[test]
fn places_are_looked_up_with_fuel() {
    let mut env = env();
    let pushed = env.push_local_variable(Var::Id(ident("x")), Ty::NamedTy(NamedTy { name: TypeName::Int, parameters: vec![] }));
    assert!(pushed.is_ok());
    let x = Place::from_var(Var::Id(ident("x")));
    let given_from_x = perm(Perm::Mv(vec![x.copy()]));
    assert!(prove_is_copy(&env, &given_from_x, 1));
    assert!(!prove_is_copy(&env, &given_from_x, 0));
    let y = Place::from_var(Var::Id(ident("y")));
    assert!(!prove_is_copy(&env, &perm(Perm::Mv(vec![y])), 1));
}

#[test]
fn application_to_a_copy_permission_is_copy() {
    let env = env();
    let applied = perm(Perm::Apply(Box::new(Perm::Given), Box::new(Perm::Shared)));
    assert!(prove_is_copy(&env, &applied, 1));
    let applied = perm(Perm::Apply(Box::new(Perm::Shared), Box::new(Perm::Given)));
    assert!(prove_is_copy(&env, &applied, 1));
    let given_given = perm(Perm::Apply(Box::new(Perm::Given), Box::new(Perm::Given)));
    assert!(!prove_is_copy(&env, &given_given, 1));
    assert!(prove_is_move(&env, &given_given, 1));
}

#[test]
fn predicates_must_constrain_variables() {
    let mut env = env();
    let vars = env.open_universal_vars(&vec![Kind::Ty]);
    let ok = Predicate::Parameter(ParameterPredicate::Copy, Parameter::Ty(Ty::Var(Variable::UniversalVar(vars[0]))));
    assert!(check_predicates(&env, &vec![ok]).is_ok());
    let bad = Predicate::Parameter(ParameterPredicate::Copy, int_param());
    assert!(matches!(check_predicates(&env, &vec![bad]), Err(TypeError::PredicateOnNonVariable)));
}
