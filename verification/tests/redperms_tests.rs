use std::sync::Arc;

use dada_model::env::Env;
use dada_model::grammar::{
    Atomic, Binder, Block, ClassDecl, ClassDeclBoundData, ClassPredicate, DropBody, FieldDecl,
    Ident, Kind, NamedTy, Perm, Place, Program, Ty, TypeName, UniversalVar, Var, Variable,
};
use dada_model::liveness::LivePlaces;
use dada_model::pop_normalize::{
    normalize_perm_for_pop, normalize_ty_for_pop, strip_popped_dead_links, DanglingBorrow,
    PopError,
};
use dada_model::redperms::{
    place_sub_place_exec, red_chain_sub_chain, red_chain_sub_perm, red_perm, some_expanded_red_chain,
    some_red_chain, sub_red_perms, RedChain, RedLink, RedPerm,
};

fn ident(s: &str) -> Ident {
    Ident::from_str(s)
}

fn var(v: &str) -> Var {
    Var::Id(ident(v))
}

fn place(v: &str) -> Place {
    Place::from_var(var(v))
}

fn int_ty() -> Ty {
    Ty::NamedTy(NamedTy { name: TypeName::Int, parameters: vec![] })
}

fn point() -> Ty {
    Ty::NamedTy(NamedTy { name: TypeName::Id(ident("Point")), parameters: vec![] })
}

fn field(name: &str) -> FieldDecl {
    FieldDecl { atomic: Atomic::No, name: ident(name), ty: int_ty() }
}

/// `p: Point`, `q: Point`, `m: mut[q] Point`, `g: Point`.
fn env() -> Env {
    let class = ClassDecl {
        class_predicate: ClassPredicate::Given,
        name: ident("Point"),
        binder: Binder {
            kinds: vec![],
            term: ClassDeclBoundData {
                predicates: vec![],
                fields: vec![field("x"), field("y")],
                methods: vec![],
                drop_body: DropBody { block: Block { statements: vec![] } },
            },
        },
    };
    let mut env = Env::new(Arc::new(Program { classes: vec![class] }));
    assert!(env.push_local_variable(var("p"), point()).is_ok());
    assert!(env.push_local_variable(var("q"), point()).is_ok());
    assert!(env.push_local_variable(var("m"), Ty::ApplyPerm(Perm::Mt(vec![place("q")]), Box::new(point()))).is_ok());
    assert!(env.push_local_variable(var("g"), point()).is_ok());
    env
}

fn chain(links: Vec<RedLink>) -> RedChain {
    RedChain { links }
}

fn is_chain(c: &RedChain, expected: &RedChain) -> bool {
    c.same(expected)
}

#[test]
fn borrows_are_live_or_dead() {
    let env = env();
    let live_p = LivePlaces::new().accessed(&place("p"));
    let cs = some_red_chain(&env, &live_p, &Perm::Rf(vec![place("p")]), 4);
    assert_eq!(cs.len(), 1);
    assert!(is_chain(&cs[0], &chain(vec![RedLink::Rfl(place("p"))])));
    let cs = some_red_chain(&env, &LivePlaces::new(), &Perm::Rf(vec![place("p")]), 4);
    assert!(is_chain(&cs[0], &chain(vec![RedLink::Rfd(place("p"))])));
    // One chain per place.
    let cs = some_red_chain(&env, &LivePlaces::new(), &Perm::Mv(vec![place("p"), place("q")]), 4);
    assert_eq!(cs.len(), 2);
    // Applying anything to a shared permission gives the shared permission.
    let applied = Perm::Apply(Box::new(Perm::Mt(vec![place("q")])), Box::new(Perm::Shared));
    let cs = some_red_chain(&env, &LivePlaces::new(), &applied, 4);
    assert_eq!(cs.len(), 1);
    assert!(is_chain(&cs[0], &chain(vec![RedLink::Shared])));
    // `given` is the empty chain; a choice reduces to nothing.
    let cs = some_red_chain(&env, &LivePlaces::new(), &Perm::Given, 4);
    assert!(cs.len() == 1 && cs[0].links.is_empty());
    assert!(some_red_chain(&env, &LivePlaces::new(), &Perm::Or(vec![Perm::Given]), 4).is_empty());
}

#[test]
fn leases_expand_through_the_types_of_places() {
    let env = env();
    let nothing = LivePlaces::new();
    // `mut[m]` where `m: mut[q] Point` expands to `mut[m] mut[q]`.
    let expected = chain(vec![RedLink::Mtd(place("m")), RedLink::Mtd(place("q"))]);
    let cs = some_expanded_red_chain(&env, &nothing, &Perm::Mt(vec![place("m")]), 4);
    assert!(!cs.is_empty());
    assert!(cs.iter().all(|c| is_chain(c, &expected)));
    let rp = red_perm(&env, &nothing, &Perm::Mt(vec![place("m")]), 4).unwrap();
    assert_eq!(rp.chains.len(), 1);
    assert!(is_chain(&rp.chains[0], &expected));
    // A borrow of a place held with `given` stops there.
    let rp = red_perm(&env, &nothing, &Perm::Rf(vec![place("g")]), 4).unwrap();
    assert_eq!(rp.chains.len(), 1);
    assert!(is_chain(&rp.chains[0], &chain(vec![RedLink::Rfd(place("g"))])));
    // Nothing comes of a choice or of a place that is not there.
    assert!(red_perm(&env, &nothing, &Perm::Or(vec![Perm::Given]), 4).is_none());
    assert!(red_perm(&env, &nothing, &Perm::Mt(vec![place("nobody")]), 4).is_none());
}

#[test]
fn popped_leases_are_let_go() {
    let env = env();
    let popped = vec![var("m")];
    let c = chain(vec![RedLink::Mtd(place("m")), RedLink::Mtd(place("q"))]);
    let s = strip_popped_dead_links(&env, &c, &popped, 4).unwrap();
    assert!(is_chain(&s, &chain(vec![RedLink::Mtd(place("q"))])));
    // A live link to a popped variable cannot be let go.
    let live = chain(vec![RedLink::Mtl(place("m"))]);
    assert!(strip_popped_dead_links(&env, &live, &popped, 4).is_none());
    // A dead share of a popped place becomes shared ownership.
    let shared = chain(vec![RedLink::Rfd(place("m")), RedLink::Mtd(place("q"))]);
    let s = strip_popped_dead_links(&env, &shared, &popped, 4).unwrap();
    assert!(is_chain(&s, &chain(vec![RedLink::Shared, RedLink::Mtd(place("q"))])));
}

#[test]
fn normalizing_permissions_for_pop() {
    let env = env();
    let nothing = LivePlaces::new();
    // `mut[m]`, popping `m: mut[q] Point`, becomes `mut[q]`.
    match normalize_perm_for_pop(&env, &nothing, &Perm::Mt(vec![place("m")]), &[var("m")], 4) {
        Ok(Perm::Mt(ps)) => assert!(ps.len() == 1 && ps[0].same(&place("q"))),
        _ => panic!("expected mut[q]"),
    }
    // A permission that names no popped variable is unchanged.
    match normalize_perm_for_pop(&env, &nothing, &Perm::Rf(vec![place("p")]), &[var("m")], 4) {
        Ok(Perm::Rf(ps)) => assert!(ps.len() == 1 && ps[0].same(&place("p"))),
        _ => panic!("expected ref[p]"),
    }
    // Borrowing from a popped value held with `given` dangles.
    match normalize_perm_for_pop(&env, &nothing, &Perm::Rf(vec![place("g")]), &[var("g")], 4) {
        Err(PopError::Dangling(DanglingBorrow::BorrowFromGiven(p))) => assert!(p.same(&place("g"))),
        _ => panic!("expected a dangling borrow"),
    }
    // A choice naming a popped variable reduces to nothing.
    let or = Perm::Or(vec![Perm::Rf(vec![place("g")])]);
    assert!(matches!(normalize_perm_for_pop(&env, &nothing, &or, &[var("g")], 4), Err(PopError::NoReduction(_))));
}

#[test]
fn normalizing_types_for_pop() {
    let env = env();
    let nothing = LivePlaces::new();
    // `mut[m] Point` becomes `mut[q] Point`.
    let t = Ty::ApplyPerm(Perm::Mt(vec![place("m")]), Box::new(point()));
    match normalize_ty_for_pop(&env, &nothing, &t, &[var("m")], 4) {
        Ok(Ty::ApplyPerm(Perm::Mt(ps), inner)) => {
            assert!(ps.len() == 1 && ps[0].same(&place("q")));
            assert!(matches!(*inner, Ty::NamedTy(_)));
        },
        _ => panic!("expected mut[q] Point"),
    }
    // The permission on a copy type does not matter and is dropped.
    let t = Ty::ApplyPerm(Perm::Rf(vec![place("g")]), Box::new(int_ty()));
    match normalize_ty_for_pop(&env, &nothing, &t, &[var("g")], 4) {
        Ok(Ty::NamedTy(n)) => assert!(matches!(n.name, TypeName::Int)),
        _ => panic!("expected Int"),
    }
    // Generic arguments are normalized in turn.
    let t = Ty::NamedTy(NamedTy {
        name: TypeName::Id(ident("Point")),
        parameters: vec![
            dada_model::grammar::Parameter::Perm(Perm::Mt(vec![place("m")])),
            dada_model::grammar::Parameter::Ty(int_ty()),
        ],
    });
    match normalize_ty_for_pop(&env, &nothing, &t, &[var("m")], 4) {
        Ok(Ty::NamedTy(n)) => {
            assert_eq!(n.parameters.len(), 2);
            match &n.parameters[0] {
                dada_model::grammar::Parameter::Perm(Perm::Mt(ps)) => assert!(ps.len() == 1 && ps[0].same(&place("q"))),
                _ => panic!("expected mut[q]"),
            }
        },
        _ => panic!("expected Point[mut[q], Int]"),
    }
    // On any other type, a dangling borrow is an error.
    let t = Ty::ApplyPerm(Perm::Rf(vec![place("g")]), Box::new(point()));
    assert!(matches!(normalize_ty_for_pop(&env, &nothing, &t, &[var("g")], 4), Err(PopError::Dangling(_))));
}

#[test]
fn chains_compare_link_by_link() {
    let env = env();
    let given = chain(vec![]);
    let shared = chain(vec![RedLink::Shared]);
    assert!(red_chain_sub_chain(&env, &given, &given, 4));
    assert!(red_chain_sub_chain(&env, &shared, &shared, 4));
    assert!(!red_chain_sub_chain(&env, &given, &shared, 4));
    let rp = chain(vec![RedLink::Rfl(place("p"))]);
    let rq = chain(vec![RedLink::Rfl(place("q"))]);
    assert!(red_chain_sub_chain(&env, &rp, &rp, 4));
    assert!(!red_chain_sub_chain(&env, &rp, &rq, 4));
    // A share of a field held with `given` can stand for a share of its owner.
    let px = place("p").project(&ident("x"));
    assert!(place_sub_place_exec(&env, &px, &place("p"), 4));
    assert!(!place_sub_place_exec(&env, &place("p"), &px, 4));
    assert!(red_chain_sub_chain(&env, &chain(vec![RedLink::Rfl(px)]), &rp, 4));
    // A dead lease of a lease can be dropped.
    let mq = chain(vec![RedLink::Mtd(place("q"))]);
    let mmq = chain(vec![RedLink::Mtd(place("m")), RedLink::Mtd(place("q"))]);
    assert!(red_chain_sub_chain(&env, &mmq, &mq, 4));
    assert!(!red_chain_sub_chain(&env, &mq, &mmq, 4));
    // The same variable on both sides.
    let v = Variable::UniversalVar(UniversalVar { kind: Kind::Perm, var_index: 0 });
    let cv = chain(vec![RedLink::Var(v)]);
    assert!(red_chain_sub_chain(&env, &cv, &cv, 4));
    // Against a set of chains, one match is enough.
    let both = RedPerm { chains: vec![rq.copy(), rp.copy()] };
    assert!(red_chain_sub_perm(&env, &rp, &both, 4));
    assert!(!red_chain_sub_perm(&env, &given, &both, 4));
}

#[test]
fn permissions_compare_by_their_chains() {
    let env = env();
    let nothing = LivePlaces::new();
    let mm = Perm::Mt(vec![place("m")]);
    let mq = Perm::Mt(vec![place("q")]);
    assert!(sub_red_perms(&env, &nothing, &mm, &mq, 4));
    assert!(!sub_red_perms(&env, &nothing, &mq, &mm, 4));
    assert!(sub_red_perms(&env, &nothing, &Perm::Given, &Perm::Given, 4));
    // A choice reduces to nothing, so it compares with nothing.
    assert!(!sub_red_perms(&env, &nothing, &Perm::Or(vec![Perm::Given]), &Perm::Given, 4));
}

#[test]
fn permissions_that_name_no_popped_variable_are_kept() {
    let env = env();
    let nothing = LivePlaces::new();
    // `given (shared Int)` names no popped variable, so it comes back as it was,
    // although `Int` is a copy type.
    let t = Ty::ApplyPerm(Perm::Given, Box::new(Ty::ApplyPerm(Perm::Shared, Box::new(int_ty()))));
    match normalize_ty_for_pop(&env, &nothing, &t, &[var("g")], 4) {
        Ok(Ty::ApplyPerm(Perm::Given, inner)) => match *inner {
            Ty::ApplyPerm(Perm::Shared, base) => assert!(matches!(*base, Ty::NamedTy(NamedTy { name: TypeName::Int, .. }))),
            _ => panic!("expected shared Int under given"),
        },
        _ => panic!("expected given (shared Int)"),
    }
}

#[test]
fn dangling_borrows_as_text() {
    let m = DanglingBorrow::BorrowFromGiven(place("g"));
    assert_eq!(
        m.message(),
        "dangling borrow: return type borrows from `g` which has `given` permission, so the borrow would outlive the owned value"
    );
    let c = RedChain { links: vec![RedLink::Rfd(place("g")), RedLink::Shared] };
    assert_eq!(
        DanglingBorrow::MentionsPopped(c).message(),
        "dangling borrow: chain `rfd[g] shared` references popped variables"
    );
    let l = DanglingBorrow::LiveLink(RedLink::Mtl(place("m")), var("m"));
    assert_eq!(l.message(), "dangling borrow: live link `mtl[m]` references popped variable `m`");
}
