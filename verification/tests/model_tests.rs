use std::sync::Arc;

use dada_model::accesses::{
    leased_place_permits_access, place_disjoint_from, place_disjoint_from_or_prefix_of,
    shared_place_permits_access,
};
use dada_model::env::Env;
use dada_model::errors::TypeError;
use dada_model::flow::Flow;
use dada_model::grammar::{
    Access, Expr, Ident, Kind, LocalVariableDecl, MethodBody, MethodDeclBoundData, NamedTy,
    ParameterPredicate, Perm, Place, PlaceExpr, Program, Statement, ThisDecl, Ty, TypeName,
    UniversalVar, Var, Variable,
};
use dada_model::in_flight::{alpha_rename_method, InFlight};
use dada_model::liveness::LivePlaces;

fn ident(s: &str) -> Ident {
    Ident::from_str(s)
}

fn var(s: &str) -> Var {
    Var::Id(ident(s))
}

fn place(v: &str, fields: &[&str]) -> Place {
    let mut p = Place::from_var(var(v));
    for f in fields {
        p = p.project(&ident(f));
    }
    p
}

fn int_ty() -> Ty {
    Ty::NamedTy(NamedTy { name: TypeName::Int, parameters: vec![] })
}

fn empty_env() -> Env {
    Env::new(Arc::new(Program { classes: vec![] }))
}

#[test]
fn places_prefix_and_disjointness() {
    let x = place("x", &[]);
    let xf = place("x", &["f"]);
    let xg = place("x", &["g"]);
    assert!(x.is_prefix_of(&xf));
    assert!(!xf.is_prefix_of(&x));
    assert!(xf.is_disjoint_from(&xg));
    assert!(!x.is_disjoint_from(&xf));
    assert!(place_disjoint_from(&xf, &xg));
    assert!(place_disjoint_from_or_prefix_of(&x, &xf));
    assert!(!place_disjoint_from_or_prefix_of(&xf, &x));
    assert_eq!(xf.strict_prefixes().len(), 1);
    assert!(xf.owner().unwrap().same(&x));
    assert!(x.owner().is_none());
}

#[test]
fn shares_and_leases_permit_accesses() {
    let x = place("x", &[]);
    let xf = place("x", &["f"]);
    let y = place("y", &[]);
    // Reading is compatible with a share, writing an unrelated place too.
    assert!(shared_place_permits_access(&xf, Access::Rf, &x));
    assert!(shared_place_permits_access(&xf, Access::Mt, &y));
    assert!(!shared_place_permits_access(&xf, Access::Mt, &x));
    // Giving away an owner of the shared place is allowed; giving the place itself is not.
    assert!(shared_place_permits_access(&xf, Access::Gv, &x));
    assert!(!leased_place_permits_access(&xf, Access::Rf, &x));
    assert!(leased_place_permits_access(&xf, Access::Rf, &y));
    assert!(matches!(Access::Gv.give_to_drop(), Access::Drop));
}

#[test]
fn liveness_of_places() {
    let x = place("x", &[]);
    let xf = place("x", &["f"]);
    let live = LivePlaces::new().accessed(&xf);
    assert!(live.is_live(&x));
    assert!(live.is_live(&xf));
    assert!(!live.is_live(&place("y", &[])));
    let dead = live.overwritten(&x);
    assert!(!dead.is_live(&xf));
    let both = LivePlaces::new().accessed(&x).union(LivePlaces::new().accessed(&place("y", &[])));
    assert_eq!(both.vars().len(), 2);
}

#[test]
fn a_read_makes_a_place_live_before_it() {
    let x = place("x", &[]);
    let read = Expr::Place(PlaceExpr { place: x.copy(), access: Access::Rf });
    let before = LivePlaces::new().before(&read);
    assert!(before.is_live(&x));
    let assign = Statement::Reassign(x.copy(), Expr::Integer(1));
    let after = LivePlaces::new().accessed(&x);
    assert!(!after.before(&assign).is_live(&x));
}

#[test]
fn flow_tracks_moves() {
    let x = place("x", &[]);
    let xf = place("x", &["f"]);
    let flow = Flow::new().move_place(&xf);
    assert!(flow.is_moved(&xf));
    assert!(flow.is_moved(&x));
    assert!(!flow.is_moved(&place("x", &["g"])));
    let reassigned = flow.assign_place(&x);
    assert!(!reassigned.is_moved(&xf));
    let gone = Flow::new().uninitialize_var(&var("y"));
    assert!(gone.variable_uninitialized(&var("y")));
    let merged = flow.merge(&gone);
    assert!(merged.is_moved(&xf) && merged.is_moved(&place("y", &[])));
}

#[test]
fn environment_locals_and_temporaries() {
    let mut env = empty_env();
    assert!(env.push_local_variable(var("a"), int_ty()).is_ok());
    assert!(matches!(env.push_local_variable(var("a"), int_ty()), Err(TypeError::ShadowedVariable(_))));
    assert!(env.var_ty(&var("a")).is_ok());
    assert!(matches!(env.var_ty(&var("b")), Err(TypeError::NoSuchVariable(_))));
    let (env2, temp) = env.push_fresh_variable(int_ty());
    assert!(matches!(temp, Var::Fresh(0)));
    assert!(env2.has_local(&temp));
    let env3 = env2.pop_fresh_variable(&temp);
    assert!(!env3.has_local(&temp));
    // Popping undoes the push: the next temporary is numbered as before.
    let (_, again) = env3.push_fresh_variable(int_ty());
    assert!(matches!(again, Var::Fresh(0)));
    let mut env4 = env3.copy();
    assert!(env4.pop_local_variables(&vec![var("a")]).is_ok());
    assert!(!env4.has_local(&var("a")));
    assert!(matches!(env4.pop_local_variables(&vec![var("a")]), Err(TypeError::NoSuchVariable(_))));
}

#[test]
fn universal_variables_and_assumptions() {
    let mut env = empty_env();
    let vars = env.open_universal_vars(&vec![Kind::Ty, Kind::Perm]);
    assert_eq!(vars.len(), 2);
    assert_eq!(vars[1].var_index, 1);
    assert!(env.var_in_scope(Variable::UniversalVar(vars[0])));
    assert!(!env.var_in_scope(Variable::UniversalVar(UniversalVar { kind: Kind::Ty, var_index: 5 })));
    assert!(!env.is(&vars[0], ParameterPredicate::Copy));
    env.add_assumptions(vec![dada_model::grammar::Predicate::Parameter(
        ParameterPredicate::Copy,
        dada_model::grammar::Parameter::Ty(Ty::Var(Variable::UniversalVar(vars[0]))),
    )]);
    assert!(env.is(&vars[0], ParameterPredicate::Copy));
}

#[test]
fn fresh_temporary_receives_the_in_flight_value() {
    let mut env = empty_env();
    let ty = Ty::ApplyPerm(Perm::Rf(vec![Place::from_var(Var::InFlight)]), Box::new(int_ty()));
    assert!(env.push_local_variable(var("r"), ty).is_ok());
    let (env2, temp) = env.push_fresh_variable_with_in_flight(int_ty());
    // The type of `r` now borrows from the temporary instead of the in-flight value.
    let r_ty = env2.var_ty(&var("r")).ok().unwrap().copy();
    match r_ty {
        Ty::ApplyPerm(Perm::Rf(places), _) => {
            assert_eq!(places.len(), 1);
            assert!(places[0].same(&Place::from_var(temp)));
        },
        _ => panic!("expected a reference type"),
    }
}

#[test]
fn alpha_renaming_a_method() {
    let method = MethodDeclBoundData {
        this: ThisDecl { perm: Perm::Given },
        inputs: vec![LocalVariableDecl { name: ident("a"), ty: int_ty() }],
        output: Ty::ApplyPerm(Perm::Rf(vec![place("a", &[])]), Box::new(int_ty())),
        predicates: vec![],
        body: MethodBody::Block(dada_model::grammar::Block {
            statements: vec![Statement::Expr(Expr::Place(PlaceExpr { place: place("a", &[]), access: Access::Gv }))],
        }),
    };
    let (renamed, vars, places) = alpha_rename_method(&method, 2);
    assert_eq!(vars.len(), 2);
    assert_eq!(places.len(), 2);
    assert!(renamed.inputs[0].name.same(&ident("_2_a")));
    match &renamed.output {
        Ty::ApplyPerm(Perm::Rf(ps), _) => assert!(ps[0].same(&place("_2_a", &[]))),
        _ => panic!("expected a reference type"),
    }
}

#[test]
fn alpha_renaming_reaches_lets_inside_initializers() {
    // `let x = { let y = 0; }`: both `x` and `y` are renamed.
    let inner = dada_model::grammar::Block {
        statements: vec![Statement::Let(ident("y"), dada_model::grammar::Ascription::NoTy, Box::new(Expr::Integer(0)))],
    };
    let method = MethodDeclBoundData {
        this: ThisDecl { perm: Perm::Given },
        inputs: vec![],
        output: int_ty(),
        predicates: vec![],
        body: MethodBody::Block(dada_model::grammar::Block {
            statements: vec![Statement::Let(ident("x"), dada_model::grammar::Ascription::NoTy, Box::new(Expr::Block(inner)))],
        }),
    };
    let (renamed, vars, _places) = alpha_rename_method(&method, 1);
    // `self`, `x` and `y`.
    assert_eq!(vars.len(), 3);
    match &renamed.body {
        MethodBody::Block(b) => match &b.statements[0] {
            Statement::Let(x, _, init) => {
                assert!(x.same(&ident("_1_x")));
                match &**init {
                    Expr::Block(ib) => match &ib.statements[0] {
                        Statement::Let(y, _, _) => assert!(y.same(&ident("_1_y"))),
                        _ => panic!("expected a let"),
                    },
                    _ => panic!("expected a block"),
                }
            },
            _ => panic!("expected a let"),
        },
        _ => panic!("expected a block body"),
    }
}

#[test]
fn storing_only_needs_places_for_the_variables_that_occur() {
    // `a.give` with `a` and `b` stored into `c` alone: `b` does not occur.
    let e = Expr::Place(PlaceExpr { place: place("a", &[]), access: Access::Gv });
    let r = e.with_vars_stored_to(&vec![var("a"), var("b")], &vec![place("c", &[])]);
    match r {
        Expr::Place(pe) => assert!(pe.place.same(&place("c", &[]))),
        _ => panic!("expected a place expression"),
    }
}

#[test]
fn any_live_asks_for_some_live_place() {
    let l = LivePlaces::new().accessed(&place("a", &[]));
    assert!(l.any_live(&vec![place("a", &[]), place("b", &[])]));
    assert!(!l.any_live(&vec![place("b", &[])]));
    assert!(!l.any_live(&vec![]));
}
