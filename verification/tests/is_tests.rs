use std::sync::Arc;

use dada_model::env::Env;
use dada_model::grammar::{
    Binder, Block, ClassDecl, ClassDeclBoundData, ClassPredicate, DropBody, Ident, Kind, NamedTy,
    Parameter, ParameterPredicate, Perm, Place, Predicate, Program, Ty, TypeName, Var, Variable,
};
use dada_model::is_::{
    is_copy, is_leased, is_unique, lien_chain_is_copy, lien_chain_is_leased, lien_chain_is_owned,
    lien_chain_is_unique,
};
use dada_model::lien_chains::{Lien, LienChain};

fn ident(s: &str) -> Ident {
    Ident::from_str(s)
}

fn place(v: &str) -> Place {
    Place::from_var(Var::Id(ident(v)))
}

/// `p: Point`.
fn env() -> Env {
    let class = ClassDecl {
        class_predicate: ClassPredicate::Given,
        name: ident("Point"),
        binder: Binder {
            kinds: vec![],
            term: ClassDeclBoundData {
                predicates: vec![],
                fields: vec![],
                methods: vec![],
                drop_body: DropBody { block: Block { statements: vec![] } },
            },
        },
    };
    let mut env = Env::new(Arc::new(Program { classes: vec![class] }));
    let point = Ty::NamedTy(NamedTy { name: TypeName::Id(ident("Point")), parameters: vec![] });
    assert!(env.push_local_variable(Var::Id(ident("p")), point).is_ok());
    env
}

fn perm(p: Perm) -> Parameter {
    Parameter::Perm(p)
}

#[test]
fn my_is_not_copy_but_our_is() {
    let env = env();
    assert!(!is_copy(&env, &perm(Perm::Given), 0));
    assert!(is_copy(&env, &perm(Perm::Shared), 0));
    assert!(is_unique(&env, &perm(Perm::Given), 0));
    assert!(!is_unique(&env, &perm(Perm::Shared), 0));
    assert!(!is_leased(&env, &perm(Perm::Given), 0));
}

#[test]
fn borrows_of_places() {
    let env = env();
    let p = place("p");
    assert!(is_copy(&env, &perm(Perm::Rf(vec![p.copy()])), 1));
    assert!(!is_leased(&env, &perm(Perm::Rf(vec![p.copy()])), 1));
    assert!(!is_copy(&env, &perm(Perm::Mt(vec![p.copy()])), 1));
    assert!(is_leased(&env, &perm(Perm::Mt(vec![p.copy()])), 1));
    assert!(is_unique(&env, &perm(Perm::Mt(vec![p.copy()])), 1));
    // Without fuel, or without a type for the place, there are no chains.
    assert!(!is_leased(&env, &perm(Perm::Mt(vec![p])), 0));
    assert!(!is_copy(&env, &perm(Perm::Rf(vec![place("nobody")])), 1));
    // A lease of no places has no chains at all, so every chain is copy.
    assert!(is_copy(&env, &perm(Perm::Mt(vec![])), 0));
}

#[test]
fn single_chains() {
    let mut env = env();
    let vars = env.open_universal_vars(&vec![Kind::Perm]);
    let v = vars[0];
    let p = place("p");
    assert!(!lien_chain_is_copy(&env, &LienChain::my(), 0));
    assert!(lien_chain_is_copy(&env, &LienChain::our(), 0));
    assert!(lien_chain_is_copy(&env, &LienChain::from_lien(Lien::shared(&p)), 0));
    assert!(!lien_chain_is_copy(&env, &LienChain::from_lien(Lien::Var(v)), 0));
    assert!(lien_chain_is_owned(&env, &LienChain::my(), 0));
    assert!(lien_chain_is_owned(&env, &LienChain::our(), 0));
    assert!(!lien_chain_is_owned(&env, &LienChain::from_lien(Lien::leased(&p)), 0));
    assert!(!lien_chain_is_owned(&env, &LienChain::from_lien(Lien::Var(v)), 0));
    assert!(lien_chain_is_leased(&env, &LienChain::from_lien(Lien::leased(&p)), 0));
    assert!(!lien_chain_is_leased(&env, &LienChain::our(), 0));
    assert!(lien_chain_is_unique(&env, &LienChain::my(), 0));
    assert!(lien_chain_is_unique(&env, &LienChain::from_lien(Lien::leased(&p)), 0));
    assert!(!lien_chain_is_unique(&env, &LienChain::our(), 0));

    let var = Parameter::Perm(Perm::Var(Variable::UniversalVar(v)));
    env.add_assumptions(vec![
        Predicate::Parameter(ParameterPredicate::Copy, var.copy()),
        Predicate::Parameter(ParameterPredicate::Owned, var),
    ]);
    assert!(lien_chain_is_copy(&env, &LienChain::from_lien(Lien::Var(v)), 0));
    assert!(lien_chain_is_owned(&env, &LienChain::from_lien(Lien::Var(v)), 0));
    let var_then_our = LienChain { vec: vec![Lien::Var(v), Lien::Our] };
    assert!(lien_chain_is_owned(&env, &var_then_our, 0));
    let var_then_lease = LienChain { vec: vec![Lien::Var(v), Lien::leased(&p)] };
    assert!(!lien_chain_is_owned(&env, &var_then_lease, 0));
}
