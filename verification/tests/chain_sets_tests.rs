use std::sync::Arc;

use dada_model::chain_sets::{lien_chain_pairs, lien_chains, ty_chains};
use dada_model::env::Env;
use dada_model::grammar::{
    Binder, Block, ClassDecl, ClassDeclBoundData, ClassPredicate, DropBody, Ident, Kind, NamedTy,
    Parameter, Perm, Place, Program, Ty, TypeName, Var, Variable,
};
use dada_model::lien_chains::{Lien, LienChain, TyChain};

fn ident(s: &str) -> Ident {
    Ident::from_str(s)
}

fn place(v: &str) -> Place {
    Place::from_var(Var::Id(ident(v)))
}

fn point() -> Ty {
    Ty::NamedTy(NamedTy { name: TypeName::Id(ident("Point")), parameters: vec![] })
}

/// `p: Point`, `s: shared Point`.
fn env() -> Env {
    let class = ClassDecl {
        class_predicate: ClassPredicate::Given,
        name: ident("Point"),
        binder: Binder {
            kinds: vec![],
            term: ClassDeclBoundData {
                predicates: vec![],
                fields: vec![],
                methods: vec![],
                drop_body: DropBody { block: Block { statements: vec![] } },
            },
        },
    };
    let mut env = Env::new(Arc::new(Program { classes: vec![class] }));
    assert!(env.push_local_variable(Var::Id(ident("p")), point()).is_ok());
    assert!(env.push_local_variable(Var::Id(ident("s")), Ty::ApplyPerm(Perm::Shared, Box::new(point()))).is_ok());
    env
}

fn perm(p: Perm) -> Parameter {
    Parameter::Perm(p)
}

fn chains(env: &Env, cx: &LienChain, p: Perm, fuel: usize) -> Vec<LienChain> {
    lien_chains(env, cx, &perm(p), fuel).unwrap()
}

fn is_our(c: &LienChain) -> bool {
    c.vec.len() == 1 && matches!(c.vec[0], Lien::Our)
}

#[test]
fn owned_and_shared_chains() {
    let env = env();
    let my = LienChain::my();
    let given = chains(&env, &my, Perm::Given, 0);
    assert_eq!(given.len(), 1);
    assert_eq!(given[0].vec.len(), 0);
    let our = chains(&env, &my, Perm::Shared, 0);
    assert_eq!(our.len(), 1);
    assert!(is_our(&our[0]));
    // Whatever is pending, `our` forgets it.
    let cx = LienChain::from_lien(Lien::leased(&place("p")));
    let our = chains(&env, &cx, Perm::Shared, 0);
    assert_eq!(our.len(), 1);
    assert!(is_our(&our[0]));
    // An owned permission takes on the pending liens.
    let given = chains(&env, &cx, Perm::Given, 0);
    assert_eq!(given.len(), 1);
    assert_eq!(given[0].vec.len(), 1);
    assert!(matches!(given[0].vec[0], Lien::Leased(_)));
}

#[test]
fn borrowing_from_places() {
    let env = env();
    let my = LienChain::my();
    let shared = chains(&env, &my, Perm::Rf(vec![place("p")]), 1);
    assert_eq!(shared.len(), 1);
    assert_eq!(shared[0].vec.len(), 1);
    match &shared[0].vec[0] {
        Lien::Shared(q) => assert!(q.same(&place("p"))),
        _ => panic!("expected a share of p"),
    }
    let leased = chains(&env, &my, Perm::Mt(vec![place("p")]), 1);
    assert_eq!(leased.len(), 1);
    assert_eq!(leased[0].vec.len(), 1);
    assert!(matches!(leased[0].vec[0], Lien::Leased(_)));
    let moved = chains(&env, &my, Perm::Mv(vec![place("p")]), 1);
    assert_eq!(moved.len(), 1);
    assert_eq!(moved[0].vec.len(), 0);
    // Sharing a place whose type is shared gives `our`.
    let through = chains(&env, &my, Perm::Rf(vec![place("s")]), 1);
    assert_eq!(through.len(), 1);
    assert!(is_our(&through[0]));
    // The pairs keep the share of `s` with `our` pending.
    let pairs = lien_chain_pairs(&env, &my, &my, &perm(Perm::Rf(vec![place("s")])), 1).unwrap();
    assert_eq!(pairs.len(), 1);
    assert_eq!(pairs[0].0.vec.len(), 1);
    assert!(matches!(pairs[0].0.vec[0], Lien::Shared(_)));
    assert!(is_our(&pairs[0].1));
}

#[test]
fn failing_walks() {
    let env = env();
    let my = LienChain::my();
    assert!(lien_chains(&env, &my, &perm(Perm::Rf(vec![place("nobody")])), 1).is_none());
    assert!(lien_chains(&env, &my, &perm(Perm::Rf(vec![place("p")])), 0).is_none());
    let unknown = Ty::NamedTy(NamedTy { name: TypeName::Id(ident("Nothing")), parameters: vec![] });
    assert!(ty_chains(&env, &my, &unknown, 0).is_none());
    // No places: no pairs at all.
    assert_eq!(chains(&env, &my, Perm::Mt(vec![]), 0).len(), 0);
}

#[test]
fn composed_permissions() {
    let env = env();
    let my = LienChain::my();
    let either = chains(&env, &my, Perm::Or(vec![Perm::Given, Perm::Shared]), 0);
    assert_eq!(either.len(), 2);
    assert!(either.iter().any(|c| c.vec.len() == 0));
    assert!(either.iter().any(|c| is_our(c)));
    // `given p` has the chains of `p`, and so has `p given`.
    let leased = Perm::Mt(vec![place("p")]);
    let left = chains(&env, &my, Perm::Apply(Box::new(Perm::Given), Box::new(leased.copy())), 1);
    let right = chains(&env, &my, Perm::Apply(Box::new(leased.copy()), Box::new(Perm::Given)), 1);
    assert_eq!(left.len(), 1);
    assert_eq!(right.len(), 1);
    assert!(matches!(left[0].vec[0], Lien::Leased(_)));
    assert!(matches!(right[0].vec[0], Lien::Leased(_)));
    // A lease then a share: the share forgets the lease.
    let shared_lease = chains(&env, &my, Perm::Apply(Box::new(leased), Box::new(Perm::Shared)), 1);
    assert_eq!(shared_lease.len(), 1);
    assert!(is_our(&shared_lease[0]));
}

#[test]
fn permission_variables_are_liens() {
    let mut env = env();
    let vars = env.open_universal_vars(&vec![Kind::Perm, Kind::Ty]);
    let a = Variable::UniversalVar(vars[0]);
    let t = Variable::UniversalVar(vars[1]);
    let with_var = chains(&env, &LienChain::my(), Perm::Var(a), 0);
    assert_eq!(with_var.len(), 1);
    assert!(matches!(with_var[0].vec[0], Lien::Var(_)));
    let ty_var = lien_chains(&env, &LienChain::my(), &Parameter::Ty(Ty::Var(t)), 0).unwrap();
    assert_eq!(ty_var.len(), 1);
    assert_eq!(ty_var[0].vec.len(), 0);
}

#[test]
fn type_chains() {
    let env = env();
    let my = LienChain::my();
    let class = ty_chains(&env, &my, &point(), 0).unwrap();
    assert_eq!(class.len(), 1);
    assert!(matches!(&class[0], TyChain::ClassTy(c, _) if c.vec.len() == 0));
    let shared = ty_chains(&env, &my, &Ty::ApplyPerm(Perm::Shared, Box::new(point())), 0).unwrap();
    assert_eq!(shared.len(), 1);
    assert!(matches!(&shared[0], TyChain::ClassTy(c, _) if is_our(c)));
    let int = Ty::NamedTy(NamedTy { name: TypeName::Int, parameters: vec![] });
    let value = ty_chains(&env, &my, &int, 0).unwrap();
    assert!(matches!(&value[0], TyChain::ValueTy(..)));
    // An owned type has the chains of the type it owns.
    let owned = ty_chains(&env, &my, &Ty::ApplyPerm(Perm::Given, Box::new(point())), 0).unwrap();
    assert_eq!(owned.len(), 1);
    assert!(matches!(&owned[0], TyChain::ClassTy(c, _) if c.vec.len() == 0));
}
