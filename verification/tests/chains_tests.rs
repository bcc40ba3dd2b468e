use std::sync::Arc;

use dada_model::env::Env;
use dada_model::grammar::{
    Ident, Kind, NamedTy, Parameter, ParameterPredicate, Perm, Place, Predicate, Program, Ty,
    TypeName, Var, Variable,
};
use dada_model::lien2::{apply_liens, lien_set_is_copy, lien_set_is_owned, Lien as Lien2, LienSet};
use dada_model::lien_chains::{collapse, collapse_to_pending, Lien, LienChain};
use dada_model::local_liens::Lien as LocalLien;
use dada_model::perm_matcher::{head_of_perm, head_to_perm, Access, Head, Leaf, Leaves, Tail};
use dada_model::perms::{apply_perms, Layout, Perms};
use dada_model::pop_normalize::{
    dangling_borrow_error, link_references_popped, perm_references_vars, red_perm_to_perm,
    DanglingBorrow,
};
use dada_model::red_terms::{red_ty, RedPerm, RedTy};
use dada_model::redperms::{pop_link, tail_link, Head as ChainHead, RedChain, RedLink, Tail as ChainTail};
use dada_model::restrictions::{Relative, RestrictionSet};
use dada_model::terms::{LienKind, Own, Terms};

fn ident(s: &str) -> Ident {
    Ident::from_str(s)
}

fn place(v: &str) -> Place {
    Place::from_var(Var::Id(ident(v)))
}

fn env() -> Env {
    Env::new(Arc::new(Program { classes: vec![] }))
}

#[test]
fn lien_chains_apply_and_cover() {
    let env = env();
    let x = place("x");
    let xf = x.project(&ident("f"));
    assert!(Lien::shared(&x).covers(&Lien::shared(&xf)));
    assert!(!Lien::shared(&xf).covers(&Lien::shared(&x)));
    assert!(!Lien::leased(&x).covers(&Lien::shared(&x)));
    let my = LienChain::my();
    assert!(!my.is_not_my());
    assert!(my.as_my().is_some());
    let leased = my.apply(&env, Lien::leased(&x));
    assert!(leased.is_not_my());
    assert_eq!(leased.vec.len(), 1);
    // A share forgets the history of the chain it is applied to.
    let shared = leased.apply(&env, Lien::shared(&xf));
    assert_eq!(shared.vec.len(), 1);
    assert!(LienChain::our().as_our().is_some());
    let two = leased.apply(&env, Lien::leased(&place("y")));
    assert_eq!(two.vec.len(), 2);
    let (first, rest) = two.split_first().unwrap();
    assert!(matches!(first, Lien::Leased(_)));
    assert_eq!(rest.vec.len(), 1);
}

#[test]
fn apply_lien_stops_at_covered_pending_lien() {
    let env = env();
    let x = place("x");
    let y = place("y");
    let pending = LienChain { vec: vec![Lien::leased(&y), Lien::leased(&x.project(&ident("f"))), Lien::leased(&place("z"))] };
    let (chain, rest) = LienChain::my().apply_leased(&env, &x, &pending);
    // `leased[y]` is applied, `leased[x.f]` is covered by `leased[x]`, `leased[z]` stays pending.
    assert_eq!(chain.vec.len(), 2);
    assert_eq!(rest.vec.len(), 1);
    let (chain, rest) = LienChain::my().apply_lien(&env, Lien::Our, &pending);
    assert_eq!(chain.vec.len(), 1);
    assert_eq!(rest.vec.len(), 0);
}

#[test]
fn collapsing_pairs_of_chains() {
    let env = env();
    let x = place("x");
    let pairs = vec![(LienChain::my(), LienChain::from_lien(Lien::leased(&x))), (LienChain::our(), LienChain::my())];
    let collapsed = collapse(&env, &pairs);
    assert_eq!(collapsed.len(), 2);
    assert_eq!(collapsed[0].vec.len(), 1);
    assert!(collapsed[1].as_our().is_some());
    let pending = collapse_to_pending(&env, &LienChain::our(), &pairs);
    assert_eq!(pending.len(), 2);
    assert!(pending[0].0.as_our().is_some());
}

#[test]
fn variable_liens_follow_assumptions() {
    let mut env = env();
    let vars = env.open_universal_vars(&vec![Kind::Perm]);
    let x = place("x");
    let chain = LienChain::my().apply(&env, Lien::leased(&x));
    assert_eq!(chain.apply(&env, Lien::Var(vars[0])).vec.len(), 2);
    env.add_assumptions(vec![Predicate::Parameter(
        ParameterPredicate::Copy,
        Parameter::Perm(Perm::Var(Variable::UniversalVar(vars[0]))),
    )]);
    assert_eq!(chain.apply(&env, Lien::Var(vars[0])).vec.len(), 1);
}

#[test]
fn red_chains_and_links() {
    let x = place("x");
    let chain = RedChain::cons(RedLink::Mtd(x.copy()), RedChain::from_link(RedLink::Shared));
    assert_eq!(chain.links.len(), 2);
    assert!(matches!(tail_link(&chain), Some(RedLink::Shared)));
    let (head, last) = pop_link(&chain).unwrap();
    assert_eq!(head.links.len(), 1);
    assert!(matches!(last, RedLink::Shared));
    assert!(RedChain::given().as_my().is_some());
    assert!(tail_link(&RedChain::given()).is_none());
    assert!(matches!(RedChain::given().to_perm(), Perm::Given));
    match chain.to_perm() {
        Perm::Apply(l, r) => {
            assert!(matches!(*l, Perm::Mt(_)));
            assert!(matches!(*r, Perm::Shared));
        },
        _ => panic!("expected an application"),
    }
    let ChainHead(first, ChainTail(rest)) = chain.split_first().unwrap();
    assert!(matches!(first, RedLink::Mtd(_)));
    assert_eq!(rest.links.len(), 1);
}

#[test]
fn permissions_that_mention_popped_variables() {
    let popped = vec![Var::Fresh(0)];
    let temp = Place::from_var(Var::Fresh(0));
    assert!(perm_references_vars(&Perm::Rf(vec![temp.copy()]), &popped));
    assert!(!perm_references_vars(&Perm::Rf(vec![place("x")]), &popped));
    let nested = Perm::Or(vec![Perm::Shared, Perm::Apply(Box::new(Perm::Given), Box::new(Perm::Mt(vec![temp.copy()])))]);
    assert!(perm_references_vars(&nested, &popped));
    assert!(!perm_references_vars(&Perm::Given, &popped));
    assert!(link_references_popped(&RedLink::Mv(temp.copy()), &popped));
    assert!(!link_references_popped(&RedLink::Shared, &popped));
}

#[test]
fn diagnosing_dangling_borrows() {
    let popped = vec![Var::Fresh(0)];
    let temp = Place::from_var(Var::Fresh(0));
    let from_given = RedChain::from_link(RedLink::Rfd(temp.copy()));
    assert!(matches!(dangling_borrow_error(&from_given, &popped), DanglingBorrow::BorrowFromGiven(_)));
    let through = RedChain::cons(RedLink::Rfd(temp.copy()), RedChain::from_link(RedLink::Shared));
    assert!(matches!(dangling_borrow_error(&through, &popped), DanglingBorrow::ThroughPopped(_, _)));
    let mutable = RedChain::from_link(RedLink::Mtd(temp.copy()));
    assert!(matches!(dangling_borrow_error(&mutable, &popped), DanglingBorrow::ThroughPopped(_, _)));
    let live = RedChain::from_link(RedLink::Rfl(temp.copy()));
    assert!(matches!(dangling_borrow_error(&live, &popped), DanglingBorrow::LiveLink(_, Var::Fresh(0))));
    let moved = RedChain::from_link(RedLink::Mv(temp.copy()));
    assert!(matches!(dangling_borrow_error(&moved, &popped), DanglingBorrow::MentionsPopped(_)));
}

#[test]
fn reduced_permissions_back_to_permissions() {
    let none = RedPerm { perms: vec![] };
    assert!(matches!(none.to_perm(), Perm::Given));
    let chains = dada_model::redperms::RedPerm { chains: vec![RedChain::from_link(RedLink::Shared)] };
    assert!(matches!(red_perm_to_perm(&chains), Perm::Shared));
    let two = dada_model::redperms::RedPerm { chains: vec![RedChain::from_link(RedLink::Shared), RedChain::given()] };
    match red_perm_to_perm(&two) {
        Perm::Or(ps) => assert_eq!(ps.len(), 2),
        _ => panic!("expected a choice"),
    }
    let empty = dada_model::redperms::RedPerm { chains: vec![] };
    assert!(matches!(red_perm_to_perm(&empty), Perm::Given));
}

#[test]
fn reduced_terms() {
    let int_ty = Ty::NamedTy(NamedTy { name: TypeName::Int, parameters: vec![] });
    let (perm, ty) = red_ty(&Parameter::Ty(Ty::ApplyPerm(Perm::Shared, Box::new(int_ty)))).unwrap();
    assert!(matches!(ty, RedTy::NamedTy(_)));
    assert!(matches!(perm, Perm::Apply(_, _)));
    let (perm, ty) = red_ty(&Parameter::Perm(Perm::Given)).unwrap();
    assert!(matches!(ty, RedTy::NoData));
    assert!(matches!(perm, Perm::Given));
    let bound = Ty::Var(Variable::BoundVar(dada_model::grammar::BoundVar { debruijn: 0, var_index: 0, kind: Kind::Ty }));
    assert!(red_ty(&Parameter::Ty(bound)).is_none());
    let our = RedPerm::our();
    assert_eq!(our.perms.len(), 1);
    let both = our.concat(&RedPerm::leaf(Perm::Mt(vec![place("x")])));
    assert!(matches!(both.to_perm(), Perm::Apply(_, _)));
    assert_eq!(RedPerm::leaf(Perm::Given).perms.len(), 0);
    let (first, rest) = both.split_first().unwrap();
    assert!(matches!(first, Perm::Shared));
    assert_eq!(rest.perms.len(), 1);
}

#[test]
fn matching_permissions_by_leaves() {
    let x = place("x");
    let perm = Perm::Apply(
        Box::new(Perm::Apply(Box::new(Perm::Shared), Box::new(Perm::Rf(vec![x.copy(), x.copy()])))),
        Box::new(Perm::Given),
    );
    let Head(head, Tail(tail)) = head_of_perm(&perm).unwrap();
    assert!(matches!(head, Leaf::Our));
    // A set of one place (written twice) reads as that place alone.
    let rebuilt = head_to_perm(&head, tail);
    match rebuilt {
        Perm::Apply(l, r) => {
            assert!(matches!(*l, Perm::Shared));
            match *r {
                Perm::Apply(a, b) => {
                    assert!(matches!(*a, Perm::Rf(_)));
                    assert!(matches!(*b, Perm::Given));
                },
                _ => panic!("expected the rest to be right-nested"),
            }
        },
        _ => panic!("expected an application"),
    }
    assert!(matches!(Leaf::from_perm(&Perm::Rf(vec![x.copy()])), Some(Leaf::Place(Access::Rf, _))));
    assert!(matches!(Leaf::from_perm(&Perm::Rf(vec![])), Some(Leaf::Places(Access::Rf, _))));
    assert!(Leaf::from_perm(&Perm::Or(vec![])).is_none());
    assert!(matches!(Leaves::from_vec(vec![]).to_perm(), Perm::Given));
    assert!(Leaves::from_perm(&perm).into_tail().is_some());
}

#[test]
fn permission_summaries() {
    let mut env = env();
    let x = place("x");
    let my = Perms::my();
    let our = Perms::our();
    assert!(!my.is_copy(&env));
    assert!(our.is_copy(&env));
    assert!(my.is_owned(&env) && our.is_owned(&env));
    let shared = Perms::shared(&vec![x.copy()]);
    assert!(shared.is_copy(&env) && shared.is_lent(&env) && !shared.is_owned(&env));
    let leased = Perms::leased(&vec![x.copy()]);
    assert!(leased.is_leased(&env) && !leased.is_not_leased(&env));
    assert!(matches!(leased.layout(&env), Layout::Leased));
    assert!(matches!(our.layout(&env), Layout::Value));
    let vars = env.open_universal_vars(&vec![Kind::Perm]);
    let v = Perms::var(vars[0]);
    match v.layout(&env) {
        Layout::Unknown(vs) => assert_eq!(vs.len(), 1),
        _ => panic!("expected an unknown layout"),
    }
    assert!(v.is_moved(&env) == false);
    // Applying to a copyable summary keeps it as it is.
    let applied = apply_perms(&env, &leased, &our);
    assert!(applied.copied && applied.leased_from.len() == 0);
    let joined = apply_perms(&env, &leased, &my);
    assert_eq!(joined.leased_from.len(), 1);
    assert!(my.union(&our).copied);
}

#[test]
fn terms_and_restrictions() {
    let x = place("x");
    let y = place("y");
    let t = Terms::our().with(&Terms::lien(LienKind::Leased, &vec![x.copy()]));
    assert_eq!(t.owns.len(), 1);
    assert_eq!(t.liens.len(), 1);
    let u = Terms::new().with_liens_from(&Terms::lien(LienKind::Shared, &vec![y.copy()]));
    assert_eq!(u.owns.len(), 0);
    assert!(matches!(u.liens[0].kind, LienKind::Shared));
    assert!(matches!(Terms::our().owns[0], Own::Our));
    let r = RestrictionSet::our().with(&RestrictionSet::relative(Relative::Shared, &vec![x.copy(), y.copy()]));
    assert_eq!(r.restrictions.len(), 2);
    let kept = RestrictionSet::new().with_restrictions_from(&r);
    assert_eq!(kept.owns.len(), 0);
    assert_eq!(kept.restrictions.len(), 2);
}

#[test]
fn lien_sets() {
    let mut env = env();
    let x = place("x");
    let plain = LienSet { elements: vec![Lien2::Leased(x.copy())] };
    let copy = LienSet { elements: vec![Lien2::Copy, Lien2::Shared(x.copy())] };
    assert!(!lien_set_is_copy(&env, &plain));
    assert!(lien_set_is_copy(&env, &copy));
    assert!(lien_set_is_owned(&env, &LienSet { elements: vec![] }));
    assert!(!lien_set_is_owned(&env, &plain));
    assert_eq!(apply_liens(&env, &plain, &copy).len(), 2);
    assert_eq!(apply_liens(&env, &copy, &plain).len(), 1);
    assert_eq!(plain.union(&copy).elements.len(), 3);
    let vars = env.open_universal_vars(&vec![Kind::Ty]);
    env.add_assumptions(vec![Predicate::Parameter(
        ParameterPredicate::Owned,
        Parameter::Ty(Ty::Var(Variable::UniversalVar(vars[0]))),
    )]);
    assert!(lien_set_is_owned(&env, &LienSet { elements: vec![Lien2::Var(vars[0])] }));
    assert!(matches!(LocalLien::rf(&x), LocalLien::Rf(_)));
    assert!(matches!(LocalLien::mt(&x), LocalLien::Mt(_)));
}
