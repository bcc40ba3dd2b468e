use std::sync::Arc;

use dada_model::env::Env;
use dada_model::grammar::{
    Binder, Block, ClassDecl, ClassDeclBoundData, ClassPredicate, DropBody, Ident, NamedTy,
    Parameter, Perm, Place, Program, Ty, TypeName, Var,
};
use dada_model::red_terms::{red_perm, red_term, red_term_under, RedTy};

fn ident(s: &str) -> Ident {
    Ident::from_str(s)
}

fn place(v: &str) -> Place {
    Place::from_var(Var::Id(ident(v)))
}

fn point() -> Ty {
    Ty::NamedTy(NamedTy { name: TypeName::Id(ident("Point")), parameters: vec![] })
}

/// `p: Point`, `q: Point`.
fn env() -> Env {
    let class = ClassDecl {
        class_predicate: ClassPredicate::Given,
        name: ident("Point"),
        binder: Binder {
            kinds: vec![],
            term: ClassDeclBoundData {
                predicates: vec![],
                fields: vec![],
                methods: vec![],
                drop_body: DropBody { block: Block { statements: vec![] } },
            },
        },
    };
    let mut env = Env::new(Arc::new(Program { classes: vec![class] }));
    assert!(env.push_local_variable(Var::Id(ident("p")), point()).is_ok());
    assert!(env.push_local_variable(Var::Id(ident("q")), point()).is_ok());
    env
}

#[test]
fn reducing_permissions() {
    let env = env();
    assert_eq!(red_perm(&env, &Perm::Given, 0).unwrap().perms.len(), 0);
    let our = red_perm(&env, &Perm::Shared, 0).unwrap();
    assert_eq!(our.perms.len(), 1);
    assert!(matches!(our.perms[0], Perm::Shared));
    // A lease then `our`: `our` is copy and forgets the lease.
    let forgets = red_perm(&env, &Perm::Apply(Box::new(Perm::Mt(vec![place("p")])), Box::new(Perm::Shared)), 2).unwrap();
    assert_eq!(forgets.perms.len(), 1);
    assert!(matches!(forgets.perms[0], Perm::Shared));
    // `given` adds nothing.
    let lease = red_perm(&env, &Perm::Apply(Box::new(Perm::Given), Box::new(Perm::Mt(vec![place("p")]))), 2).unwrap();
    assert_eq!(lease.perms.len(), 1);
    assert!(matches!(lease.perms[0], Perm::Mt(_)));
    // Two leases stay in order.
    let two = red_perm(&env, &Perm::Apply(Box::new(Perm::Mt(vec![place("p")])), Box::new(Perm::Mt(vec![place("q")]))), 2).unwrap();
    assert_eq!(two.perms.len(), 2);
    assert!(matches!(&two.perms[0], Perm::Mt(ps) if ps[0].same(&place("p"))));
    assert!(matches!(&two.perms[1], Perm::Mt(ps) if ps[0].same(&place("q"))));
    // Alternatives have no reduction.
    assert!(red_perm(&env, &Perm::Or(vec![Perm::Given, Perm::Shared]), 0).is_none());
}

#[test]
fn reducing_terms() {
    let env = env();
    let shared_point = Parameter::Ty(Ty::ApplyPerm(Perm::Shared, Box::new(point())));
    let t = red_term(&env, &shared_point, 1).unwrap();
    assert_eq!(t.red_perm.perms.len(), 1);
    assert!(matches!(t.red_perm.perms[0], Perm::Shared));
    assert!(matches!(t.red_ty, RedTy::NamedTy(_)));
    let t = red_term(&env, &Parameter::Perm(Perm::Mt(vec![place("p")])), 2).unwrap();
    assert_eq!(t.red_perm.perms.len(), 1);
    assert!(matches!(t.red_ty, RedTy::NoData));
    // Under a lease, a point stays leased.
    let t = red_term_under(&env, &Perm::Mt(vec![place("q")]), &Parameter::Ty(point()), 2).unwrap();
    assert_eq!(t.red_perm.perms.len(), 1);
    assert!(matches!(t.red_perm.perms[0], Perm::Mt(_)));
}
