use std::sync::Arc;

use dada_model::env::Env;
use dada_model::errors::TypeError;
use dada_model::grammar::{
    Binder, Block, ClassDecl, ClassDeclBoundData, ClassPredicate, DropBody, Ident, Kind, NamedTy,
    Parameter, ParameterPredicate, Perm, Place, Predicate, Program, Ty, TypeName, Var, Variable,
};

fn ident(s: &str) -> Ident {
    Ident::from_str(s)
}

fn class(name: &str) -> ClassDecl {
    ClassDecl {
        class_predicate: ClassPredicate::Shared,
        name: ident(name),
        binder: Binder {
            kinds: vec![],
            term: ClassDeclBoundData {
                predicates: vec![],
                fields: vec![],
                methods: vec![],
                drop_body: DropBody { block: Block { statements: vec![] } },
            },
        },
    }
}

fn named(name: TypeName, parameters: Vec<Parameter>) -> Ty {
    Ty::NamedTy(NamedTy { name, parameters })
}

fn int_ty() -> Ty {
    named(TypeName::Int, vec![])
}

fn place(v: &str) -> Place {
    Place::from_var(Var::Id(ident(v)))
}

/// `s: shared Point`, `n: Int`, `p: Point`.
fn env() -> Env {
    let program = Program { classes: vec![class("Point")] };
    let mut env = Env::new(Arc::new(program));
    let point = named(TypeName::Id(ident("Point")), vec![]);
    assert!(env.push_local_variable(Var::Id(ident("s")), Ty::ApplyPerm(Perm::Shared, Box::new(point.copy()))).is_ok());
    assert!(env.push_local_variable(Var::Id(ident("n")), int_ty()).is_ok());
    assert!(env.push_local_variable(Var::Id(ident("p")), point).is_ok());
    env
}

fn perm(p: Perm) -> Parameter {
    Parameter::Perm(p)
}

#[test]
fn owned_and_shared_permissions() {
    let env = env();
    assert!(matches!(env.is_copy(&perm(Perm::Given), 0), Ok(false)));
    assert!(matches!(env.is_moved(&perm(Perm::Given), 0), Ok(true)));
    assert!(matches!(env.is_copy(&perm(Perm::Shared), 0), Ok(true)));
    assert!(matches!(env.is_moved(&perm(Perm::Shared), 0), Ok(false)));
    assert!(matches!(env.is_copy(&perm(Perm::Rf(vec![place("p")])), 0), Ok(true)));
    assert!(matches!(env.is_moved(&perm(Perm::Rf(vec![place("p")])), 0), Ok(false)));
}

#[test]
fn leases_follow_the_types_of_their_places() {
    let env = env();
    // `s` has a shared type, so a lease of it is copy and not moved.
    assert!(matches!(env.is_copy(&perm(Perm::Mt(vec![place("s")])), 1), Ok(true)));
    assert!(matches!(env.is_moved(&perm(Perm::Mt(vec![place("s")])), 1), Ok(false)));
    // `p` has a class type: neither copy nor moved.
    assert!(matches!(env.is_copy(&perm(Perm::Mt(vec![place("p")])), 1), Ok(false)));
    assert!(matches!(env.is_moved(&perm(Perm::Mv(vec![place("p")])), 1), Ok(false)));
    // Copy if any place is; moved only if all are.
    assert!(matches!(env.is_copy(&perm(Perm::Mt(vec![place("p"), place("s")])), 1), Ok(true)));
    // `n: Int` is a value type without arguments: moved, not copy.
    assert!(matches!(env.is_moved(&perm(Perm::Mv(vec![place("n")])), 1), Ok(true)));
    assert!(matches!(env.is_copy(&perm(Perm::Mv(vec![place("n")])), 1), Ok(false)));
    // No places: nothing makes it copy, and every place is moved.
    assert!(matches!(env.is_copy(&perm(Perm::Mt(vec![])), 0), Ok(false)));
    assert!(matches!(env.is_moved(&perm(Perm::Mt(vec![])), 0), Ok(true)));
}

#[test]
fn looking_up_places_spends_fuel_and_can_fail() {
    let env = env();
    assert!(matches!(env.is_copy(&perm(Perm::Mt(vec![place("s")])), 0), Err(TypeError::OutOfFuel)));
    assert!(matches!(env.is_copy(&perm(Perm::Mt(vec![place("nobody")])), 1), Err(TypeError::NoSuchVariable(_))));
    // A place already found copy hides a later failing one.
    assert!(matches!(env.is_copy(&perm(Perm::Mt(vec![place("s"), place("nobody")])), 1), Ok(true)));
}

#[test]
fn composed_permissions_and_types() {
    let env = env();
    let given_shared = Perm::Apply(Box::new(Perm::Given), Box::new(Perm::Shared));
    assert!(matches!(env.is_copy(&perm(given_shared.copy()), 0), Ok(true)));
    assert!(matches!(env.is_moved(&perm(given_shared), 0), Ok(false)));
    let given_given = Perm::Apply(Box::new(Perm::Given), Box::new(Perm::Given));
    assert!(matches!(env.is_moved(&perm(given_given), 0), Ok(true)));
    // `Or` is copy (or moved) if any alternative is.
    let either = Perm::Or(vec![Perm::Given, Perm::Shared]);
    assert!(matches!(env.is_copy(&perm(either.copy()), 0), Ok(true)));
    assert!(matches!(env.is_moved(&perm(either), 0), Ok(true)));
    // A shared class type is copy through its permission.
    let point = named(TypeName::Id(ident("Point")), vec![]);
    let shared_point = Parameter::Ty(Ty::ApplyPerm(Perm::Shared, Box::new(point.copy())));
    assert!(matches!(env.is_copy(&shared_point, 0), Ok(true)));
    assert!(matches!(env.is_copy(&Parameter::Ty(point.copy()), 0), Ok(false)));
    assert!(matches!(env.is_moved(&Parameter::Ty(point), 0), Ok(false)));
}

#[test]
fn value_types_follow_their_arguments() {
    let env = env();
    let pair = NamedTy {
        name: TypeName::Tuple(2),
        parameters: vec![Parameter::Ty(int_ty()), Parameter::Ty(Ty::ApplyPerm(Perm::Shared, Box::new(int_ty())))],
    };
    assert!(matches!(env.named_ty_is_copy(&pair, 0), Ok(true)));
    assert!(matches!(env.is_moved(&Parameter::Ty(Ty::NamedTy(pair)), 0), Ok(false)));
    let ints = NamedTy { name: TypeName::Tuple(2), parameters: vec![Parameter::Ty(int_ty()), Parameter::Ty(int_ty())] };
    assert!(matches!(env.named_ty_is_copy(&ints, 0), Ok(false)));
    assert!(matches!(env.is_moved(&Parameter::Ty(Ty::NamedTy(ints)), 0), Ok(true)));
    let point = NamedTy { name: TypeName::Id(ident("Point")), parameters: vec![Parameter::Perm(Perm::Shared)] };
    assert!(matches!(env.named_ty_is_copy(&point, 0), Ok(false)));
}

#[test]
fn variables_follow_the_assumptions() {
    let mut env = env();
    let vars = env.open_universal_vars(&vec![Kind::Perm, Kind::Perm]);
    let a = Variable::UniversalVar(vars[0]);
    let b = Variable::UniversalVar(vars[1]);
    env.add_assumptions(vec![Predicate::Parameter(ParameterPredicate::Copy, Parameter::Perm(Perm::Var(a)))]);
    assert!(matches!(env.is_copy(&perm(Perm::Var(a)), 0), Ok(true)));
    assert!(matches!(env.is_moved(&perm(Perm::Var(a)), 0), Ok(false)));
    assert!(matches!(env.is_copy(&perm(Perm::Var(b)), 0), Ok(false)));
}
