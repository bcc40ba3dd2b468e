use std::sync::Arc;

use dada_model::accesses::{
    access_permitted, accesses_permitted, env_permits_access, lien_permit_access,
    parameter_permits_access,
};
use dada_model::env::Env;
use dada_model::grammar::{
    Access, Atomic, Binder, Block, ClassDecl, ClassDeclBoundData, ClassPredicate, DropBody,
    FieldDecl, Ident, NamedTy, Parameter, Perm, Place, Program, Ty, TypeName, Var,
};
use dada_model::liveness::LivePlaces;
use dada_model::local_liens::{liens, Lien};

fn ident(s: &str) -> Ident {
    Ident::from_str(s)
}

fn place(v: &str) -> Place {
    Place::from_var(Var::Id(ident(v)))
}

fn int_ty() -> Ty {
    Ty::NamedTy(NamedTy { name: TypeName::Int, parameters: vec![] })
}

fn point() -> Ty {
    Ty::NamedTy(NamedTy { name: TypeName::Id(ident("Point")), parameters: vec![] })
}

fn field(name: &str) -> FieldDecl {
    FieldDecl { atomic: Atomic::No, name: ident(name), ty: int_ty() }
}

/// `p: Point`, `q: Point`, `r: ref[p] Point`, `m: mut[q] Point`.
fn env() -> Env {
    let class = ClassDecl {
        class_predicate: ClassPredicate::Given,
        name: ident("Point"),
        binder: Binder {
            kinds: vec![],
            term: ClassDeclBoundData {
                predicates: vec![],
                fields: vec![field("x"), field("y")],
                methods: vec![],
                drop_body: DropBody { block: Block { statements: vec![] } },
            },
        },
    };
    let mut env = Env::new(Arc::new(Program { classes: vec![class] }));
    assert!(env.push_local_variable(Var::Id(ident("p")), point()).is_ok());
    assert!(env.push_local_variable(Var::Id(ident("q")), point()).is_ok());
    assert!(env.push_local_variable(Var::Id(ident("r")), Ty::ApplyPerm(Perm::Rf(vec![place("p")]), Box::new(point()))).is_ok());
    assert!(env.push_local_variable(Var::Id(ident("m")), Ty::ApplyPerm(Perm::Mt(vec![place("q")]), Box::new(point()))).is_ok());
    env
}

fn live(vars: &[&str]) -> LivePlaces {
    let mut l = LivePlaces::new();
    for v in vars {
        l = l.accessed(&place(v));
    }
    l
}

#[test]
fn liens_of_types() {
    let env = env();
    // `ref[p] Point` can only be derived holding a share of `p`.
    let r_ty = Parameter::Ty(Ty::ApplyPerm(Perm::Rf(vec![place("p")]), Box::new(point())));
    let ls = liens(&env, &r_ty, 1);
    assert_eq!(ls.len(), 1);
    assert_eq!(ls[0].len(), 1);
    assert!(matches!(&ls[0][0], Lien::Rf(x) if x.same(&place("p"))));
    let m_ty = Parameter::Ty(Ty::ApplyPerm(Perm::Mt(vec![place("q")]), Box::new(point())));
    let ls = liens(&env, &m_ty, 1);
    assert_eq!(ls.len(), 1);
    assert_eq!(ls[0].len(), 1);
    assert!(matches!(&ls[0][0], Lien::Mt(x) if x.same(&place("q"))));
    // Owned and shared values hold no liens.
    for a in [Parameter::Ty(point()), Parameter::Perm(Perm::Given), Parameter::Perm(Perm::Shared)] {
        let ls = liens(&env, &a, 0);
        assert_eq!(ls.len(), 1);
        assert!(ls[0].is_empty());
    }
    // A borrow of a place whose type is `ref[p] Point` holds both liens.
    let ls = liens(&env, &Parameter::Perm(Perm::Rf(vec![place("r")])), 2);
    assert_eq!(ls.len(), 1);
    assert_eq!(ls[0].len(), 2);
    assert!(ls[0].iter().any(|l| matches!(l, Lien::Rf(x) if x.same(&place("r")))));
    assert!(ls[0].iter().any(|l| matches!(l, Lien::Rf(x) if x.same(&place("p")))));
    // Nothing can be derived for alternatives, unknown places, or without fuel.
    assert!(liens(&env, &Parameter::Perm(Perm::Or(vec![Perm::Given])), 0).is_empty());
    assert!(liens(&env, &Parameter::Perm(Perm::Rf(vec![place("nobody")])), 1).is_empty());
    assert!(liens(&env, &Parameter::Perm(Perm::Rf(vec![place("p")])), 0).is_empty());
}

#[test]
fn copy_right_hand_sides_drop_liens() {
    let env = env();
    // `ref[p] Int`: `Int` is copy, so the reference may drop its lien.
    let r_int = Parameter::Ty(Ty::ApplyPerm(Perm::Rf(vec![place("p")]), Box::new(int_ty())));
    let ls = liens(&env, &r_int, 1);
    assert_eq!(ls.len(), 2);
    assert!(ls.iter().any(|o| o.is_empty()));
    assert!(ls.iter().any(|o| o.len() == 1 && matches!(&o[0], Lien::Rf(x) if x.same(&place("p")))));
    // So such a reference does not stop `p` from being written.
    assert!(parameter_permits_access(&env, &r_int, Access::Mt, &place("p"), 1));
    // `mut[q] shared`: a shared right-hand side may drop the lease.
    let shared_lease = Parameter::Perm(Perm::Apply(Box::new(Perm::Mt(vec![place("q")])), Box::new(Perm::Shared)));
    let ls = liens(&env, &shared_lease, 1);
    assert_eq!(ls.len(), 2);
    assert!(ls.iter().any(|o| o.is_empty()));
    assert!(ls.iter().any(|o| o.len() == 1 && matches!(&o[0], Lien::Mt(x) if x.same(&place("q")))));
}

#[test]
fn single_liens_permit_accesses() {
    let p = place("p");
    let px = p.project(&ident("x"));
    let q = place("q");
    let share = Lien::rf(&p);
    let lease = Lien::mt(&p);
    assert!(lien_permit_access(&share, Access::Rf, &p));
    assert!(!lien_permit_access(&share, Access::Mt, &p));
    assert!(!lien_permit_access(&share, Access::Mt, &px));
    assert!(!lien_permit_access(&share, Access::Drop, &p));
    assert!(lien_permit_access(&share, Access::Gv, &p));
    assert!(!lien_permit_access(&share, Access::Gv, &px));
    assert!(lien_permit_access(&share, Access::Mt, &q));
    assert!(!lien_permit_access(&lease, Access::Rf, &p));
    assert!(!lien_permit_access(&lease, Access::Rf, &px));
    assert!(lien_permit_access(&lease, Access::Gv, &p));
    assert!(lien_permit_access(&lease, Access::Rf, &q));
}

#[test]
fn live_references_guard_their_places() {
    let env = env();
    let live_r = live(&["r"]);
    assert!(env_permits_access(&env, &live_r, Access::Rf, &place("p"), 2));
    assert!(!env_permits_access(&env, &live_r, Access::Mt, &place("p"), 2));
    assert!(!env_permits_access(&env, &live_r, Access::Drop, &place("p"), 2));
    assert!(env_permits_access(&env, &live_r, Access::Gv, &place("p"), 2));
    assert!(env_permits_access(&env, &live_r, Access::Mt, &place("q"), 2));
    // Once `r` is dead, `p` is free again.
    let nothing = LivePlaces::new();
    assert!(env_permits_access(&env, &nothing, Access::Mt, &place("p"), 2));
    assert!(access_permitted(&env, &nothing, Access::Drop, &place("p"), 2));
}

#[test]
fn live_leases_guard_their_places() {
    let env = env();
    let live_m = live(&["m"]);
    assert!(!env_permits_access(&env, &live_m, Access::Rf, &place("q"), 2));
    assert!(!env_permits_access(&env, &live_m, Access::Mt, &place("q"), 2));
    assert!(env_permits_access(&env, &live_m, Access::Gv, &place("q"), 2));
    assert!(env_permits_access(&env, &live_m, Access::Rf, &place("p"), 2));
    assert!(accesses_permitted(&env, &live(&["r"]), Access::Rf, &vec![place("p"), place("q")], 2));
    assert!(!accesses_permitted(&env, &live(&["r"]), Access::Mt, &vec![place("q"), place("p")], 2));
}

#[test]
fn fields_of_live_places() {
    let env = env();
    // `p` stays live: mutating `p.x` is checked against the other fields of `p`.
    let live_p = live(&["p"]);
    assert!(env_permits_access(&env, &live_p, Access::Mt, &place("p").project(&ident("x")), 2));
    // A type without liens permits everything.
    assert!(parameter_permits_access(&env, &Parameter::Ty(point()), Access::Drop, &place("p"), 0));
    let r_ty = Parameter::Ty(Ty::ApplyPerm(Perm::Rf(vec![place("p")]), Box::new(point())));
    assert!(!parameter_permits_access(&env, &r_ty, Access::Drop, &place("p"), 1));
    // Without fuel the liens cannot be found, and nothing is permitted.
    assert!(!parameter_permits_access(&env, &r_ty, Access::Rf, &place("p"), 0));
}
