//! The permission summary of a type or permission, and the questions it
//! answers.
//!
//! `my` and named types have the empty summary, `our` is copied; a share or
//! lease of places is the summary of the places' types with the share or
//! lease applied; moving from places is the summary of their types; a
//! universal variable stands for itself. Each place whose type is looked up
//! spends one unit of fuel.
use vstd::prelude::*;

use crate::env::{Env, SEnv};
use crate::grammar::{
    lemma_perms_view, lemma_place_set_contains, perms_view, place_set, NamedTy, Parameter, Perm,
    Place, SParameter, SPerm, SPlace, STy, Ty, UniversalVar, Variable,
};
use crate::ownership::lemma_perms_size_front;
use crate::perms::{apply_perms, apply_perms_spec, perms_union, LienData, Perms, SPerms, STyData, TyData};
use crate::places::place_ty_of;
use crate::predicates::{lemma_param_size_pos, param_size, perm_size, perms_size, ty_param};
use crate::chain_sets::lemma_perms_size_each;

verus! {

pub open spec fn my_perms() -> SPerms {
    SPerms { copied: false, shared_from: Set::empty(), leased_from: Set::empty(), variables: Set::empty() }
}

pub open spec fn our_perms() -> SPerms {
    SPerms { copied: true, ..my_perms() }
}

pub open spec fn shared_perms(s: Set<SPlace>) -> SPerms {
    SPerms { copied: true, shared_from: s, ..my_perms() }
}

pub open spec fn leased_perms(s: Set<SPlace>) -> SPerms {
    SPerms { leased_from: s, ..my_perms() }
}

pub open spec fn var_perms(v: UniversalVar) -> SPerms {
    SPerms { variables: set![v], ..my_perms() }
}

/// The union of the summaries `f(0)`, ..., `f(n - 1)`.
pub open spec fn family_union(f: spec_fn(int) -> SPerms, n: int) -> SPerms {
    SPerms {
        copied: exists|j: int| 0 <= j < n && #[trigger] f(j).copied,
        shared_from: Set::new(|p: SPlace| exists|j: int| 0 <= j < n && #[trigger] f(j).shared_from.contains(p)),
        leased_from: Set::new(|p: SPlace| exists|j: int| 0 <= j < n && #[trigger] f(j).leased_from.contains(p)),
        variables: Set::new(|v: UniversalVar| exists|j: int| 0 <= j < n && #[trigger] f(j).variables.contains(v)),
    }
}

pub proof fn lemma_family_union_zero(f: spec_fn(int) -> SPerms)
    ensures
        family_union(f, 0) == my_perms(),
{
    assert(family_union(f, 0).shared_from =~= Set::<SPlace>::empty());
    assert(family_union(f, 0).leased_from =~= Set::<SPlace>::empty());
    assert(family_union(f, 0).variables =~= Set::<UniversalVar>::empty());
}

pub proof fn lemma_family_union_step(f: spec_fn(int) -> SPerms, n: int)
    requires
        n >= 0,
    ensures
        family_union(f, n + 1) == perms_union(family_union(f, n), f(n)),
{
    let a = family_union(f, n + 1);
    let b = perms_union(family_union(f, n), f(n));
    assert(a.copied == b.copied) by {
        if a.copied {
            let j = choose|j: int| 0 <= j < n + 1 && #[trigger] f(j).copied;
        }
    }
    assert(a.shared_from =~= b.shared_from) by {
        assert forall|p: SPlace| a.shared_from.contains(p) implies b.shared_from.contains(p) by {
            let j = choose|j: int| 0 <= j < n + 1 && #[trigger] f(j).shared_from.contains(p);
        }
    }
    assert(a.leased_from =~= b.leased_from) by {
        assert forall|p: SPlace| a.leased_from.contains(p) implies b.leased_from.contains(p) by {
            let j = choose|j: int| 0 <= j < n + 1 && #[trigger] f(j).leased_from.contains(p);
        }
    }
    assert(a.variables =~= b.variables) by {
        assert forall|v: UniversalVar| a.variables.contains(v) implies b.variables.contains(v) by {
            let j = choose|j: int| 0 <= j < n + 1 && #[trigger] f(j).variables.contains(v);
        }
    }
}

/// The summary of `a`, or `None` if a place has no type, a variable is not
/// universal, or the fuel runs out.
pub open spec fn perms_of(env: SEnv, a: SParameter, fuel: nat) -> Option<SPerms>
    decreases fuel, 2 * param_size(a),
{
    match a {
        SParameter::Ty(t) => match t {
            STy::NamedTy(_) => Some(my_perms()),
            STy::Var(Variable::UniversalVar(v)) => Some(var_perms(v)),
            STy::Var(_) => None,
            STy::ApplyPerm(q, inner) => match (perms_of(env, SParameter::Perm(q), fuel), perms_of(env, SParameter::Ty(*inner), fuel)) {
                (Some(l), Some(r)) => Some(apply_perms_spec(env, l, r)),
                _ => None,
            },
        },
        SParameter::Perm(q) => match q {
            SPerm::Given => Some(my_perms()),
            SPerm::Shared => Some(our_perms()),
            SPerm::Rf(s) => match places_perms(env, s, fuel) {
                Some(p) => Some(apply_perms_spec(env, shared_perms(s), p)),
                None => None,
            },
            SPerm::Mt(s) => match places_perms(env, s, fuel) {
                Some(p) => Some(apply_perms_spec(env, leased_perms(s), p)),
                None => None,
            },
            SPerm::Mv(s) => places_perms(env, s, fuel),
            SPerm::Var(Variable::UniversalVar(v)) => Some(var_perms(v)),
            SPerm::Var(_) => None,
            SPerm::Apply(l, r) => match (perms_of(env, SParameter::Perm(*l), fuel), perms_of(env, SParameter::Perm(*r), fuel)) {
                (Some(pl), Some(pr)) => Some(apply_perms_spec(env, pl, pr)),
                _ => None,
            },
            SPerm::Or(ps) => or_perms(env, ps, fuel),
        },
    }
}

/// The union of the summaries of the alternatives of an `Or`.
pub open spec fn or_perms(env: SEnv, ps: Seq<SPerm>, fuel: nat) -> Option<SPerms>
    decreases fuel, 2 * perms_size(ps) + 1,
{
    proof {
        lemma_perms_size_each(ps);
    }
    if forall|j: int| 0 <= j < ps.len() ==> perms_of(env, SParameter::Perm(#[trigger] ps[j]), fuel) is Some {
        Some(SPerms {
            copied: exists|j: int| 0 <= j < ps.len() && perms_of(env, SParameter::Perm(#[trigger] ps[j]), fuel).unwrap().copied,
            shared_from: Set::new(|p: SPlace| exists|j: int| 0 <= j < ps.len()
                && perms_of(env, SParameter::Perm(#[trigger] ps[j]), fuel).unwrap().shared_from.contains(p)),
            leased_from: Set::new(|p: SPlace| exists|j: int| 0 <= j < ps.len()
                && perms_of(env, SParameter::Perm(#[trigger] ps[j]), fuel).unwrap().leased_from.contains(p)),
            variables: Set::new(|v: UniversalVar| exists|j: int| 0 <= j < ps.len()
                && perms_of(env, SParameter::Perm(#[trigger] ps[j]), fuel).unwrap().variables.contains(v)),
        })
    } else {
        None
    }
}

/// The union of the summaries of the types of the places of `s`.
pub open spec fn places_perms(env: SEnv, s: Set<SPlace>, fuel: nat) -> Option<SPerms>
    decreases fuel, 1nat,
{
    if forall|q: SPlace| #[trigger] s.contains(q) ==> place_perms(env, q, fuel) is Some {
        Some(SPerms {
            copied: exists|q: SPlace| #[trigger] s.contains(q) && place_perms(env, q, fuel).unwrap().copied,
            shared_from: Set::new(|p: SPlace| exists|q: SPlace| #[trigger] s.contains(q)
                && place_perms(env, q, fuel).unwrap().shared_from.contains(p)),
            leased_from: Set::new(|p: SPlace| exists|q: SPlace| #[trigger] s.contains(q)
                && place_perms(env, q, fuel).unwrap().leased_from.contains(p)),
            variables: Set::new(|v: UniversalVar| exists|q: SPlace| #[trigger] s.contains(q)
                && place_perms(env, q, fuel).unwrap().variables.contains(v)),
        })
    } else {
        None
    }
}

/// The summary of the type of place `q`, looked up with one less unit of
/// fuel.
pub open spec fn place_perms(env: SEnv, q: SPlace, fuel: nat) -> Option<SPerms>
    decreases fuel, 0nat,
{
    if fuel == 0 {
        None
    } else {
        match place_ty_of(env, q) {
            Err(_) => None,
            Ok(t) => perms_of(env, ty_param(t), (fuel - 1) as nat),
        }
    }
}

pub open spec fn opt_perms(r: Option<Perms>) -> Option<SPerms> {
    match r {
        None => None,
        Some(p) => Some(p@),
    }
}

/// The summary of `a` (see [`perms_of`]).
pub fn perms(env: &Env, a: &Parameter, fuel: usize) -> (r: Option<Perms>)
    ensures
        opt_perms(r) == perms_of(env@, a@, fuel as nat),
    decreases fuel, 2 * param_size(a@),
{
    match a {
        Parameter::Ty(t) => match t {
            Ty::NamedTy(n) => {
                assert(a@ == SParameter::Ty(STy::NamedTy(n@)));
                Some(Perms::my())
            },
            Ty::Var(v) => {
                assert(a@ == SParameter::Ty(STy::Var(*v)));
                match v {
                    Variable::UniversalVar(u) => Some(Perms::var(*u)),
                    _ => None,
                }
            },
            Ty::ApplyPerm(q, inner) => {
                let qp = Parameter::Perm(q.copy());
                let tp = Parameter::Ty((**inner).copy());
                assert(a@ == SParameter::Ty(STy::ApplyPerm(q@, Box::new(inner@))));
                assert(qp@ == SParameter::Perm(q@));
                assert(tp@ == SParameter::Ty(inner@));
                let l = perms(env, &qp, fuel);
                let r = perms(env, &tp, fuel);
                match (l, r) {
                    (Some(l), Some(r)) => Some(apply_perms(env, &l, &r)),
                    _ => None,
                }
            },
        },
        Parameter::Perm(q) => match q {
            Perm::Given => Some(Perms::my()),
            Perm::Shared => Some(Perms::our()),
            Perm::Rf(s) => {
                assert(a@ == SParameter::Perm(SPerm::Rf(place_set(s@))));
                match places_perms_exec(env, s, fuel) {
                    Some(p) => Some(apply_perms(env, &Perms::shared(s), &p)),
                    None => None,
                }
            },
            Perm::Mt(s) => {
                assert(a@ == SParameter::Perm(SPerm::Mt(place_set(s@))));
                match places_perms_exec(env, s, fuel) {
                    Some(p) => Some(apply_perms(env, &Perms::leased(s), &p)),
                    None => None,
                }
            },
            Perm::Mv(s) => {
                assert(a@ == SParameter::Perm(SPerm::Mv(place_set(s@))));
                places_perms_exec(env, s, fuel)
            },
            Perm::Var(v) => {
                assert(a@ == SParameter::Perm(SPerm::Var(*v)));
                match v {
                    Variable::UniversalVar(u) => Some(Perms::var(*u)),
                    _ => None,
                }
            },
            Perm::Apply(l, rr) => {
                let lp = Parameter::Perm((**l).copy());
                let rp = Parameter::Perm((**rr).copy());
                assert(a@ == SParameter::Perm(SPerm::Apply(Box::new(l@), Box::new(rr@))));
                assert(lp@ == SParameter::Perm(l@));
                assert(rp@ == SParameter::Perm(rr@));
                let pl = perms(env, &lp, fuel);
                let pr = perms(env, &rp, fuel);
                match (pl, pr) {
                    (Some(pl), Some(pr)) => Some(apply_perms(env, &pl, &pr)),
                    _ => None,
                }
            },
            Perm::Or(ps) => {
                assert(a@ == SParameter::Perm(SPerm::Or(perms_view(ps@))));
                or_perms_exec(env, ps, fuel)
            },
        },
    }
}

fn or_perms_exec(env: &Env, ps: &Vec<Perm>, fuel: usize) -> (r: Option<Perms>)
    ensures
        opt_perms(r) == or_perms(env@, perms_view(ps@), fuel as nat),
    decreases fuel, 2 * perms_size(perms_view(ps@)) + 1,
{
    let ghost e = env@;
    let ghost f = fuel as nat;
    let ghost pv = perms_view(ps@);
    let ghost fam = |j: int| if 0 <= j < pv.len() {
        perms_of(e, SParameter::Perm(pv[j]), f).unwrap()
    } else {
        my_perms()
    };
    proof {
        lemma_perms_view(ps@);
        lemma_perms_size_each(pv);
        lemma_family_union_zero(fam);
    }
    let mut acc = Perms::my();
    let mut i: usize = 0;
    proof {
        assert(fam =~= (|j: int| if 0 <= j < pv.len() {
            perms_of(e, SParameter::Perm(pv[j]), f).unwrap()
        } else {
            my_perms()
        }));
    }
    while i < ps.len()
        invariant
            e == env@,
            f == fuel as nat,
            pv == perms_view(ps@),
            pv.len() == ps@.len(),
            fam == (|j: int| if 0 <= j < pv.len() {
                perms_of(e, SParameter::Perm(pv[j]), f).unwrap()
            } else {
                my_perms()
            }),
            forall|j: int| 0 <= j < ps@.len() ==> #[trigger] pv[j] == ps@[j]@,
            forall|j: int| 0 <= j < pv.len() ==> perm_size(#[trigger] pv[j]) <= perms_size(pv),
            i <= ps@.len(),
            forall|j: int| 0 <= j < i ==> perms_of(e, SParameter::Perm(#[trigger] pv[j]), f) is Some,
            acc@ == family_union(fam, i as int),
        decreases ps.len() - i,
    {
        let qp = Parameter::Perm(ps[i].copy());
        assert(qp@ == SParameter::Perm(pv[i as int]));
        match perms(env, &qp, fuel) {
            None => return None,
            Some(p) => {
                proof {
                    lemma_family_union_step(fam, i as int);
                }
                acc = acc.union(&p);
            },
        }
        i = i + 1;
    }
    proof {
        let n = pv.len() as int;
        let u = or_perms(e, pv, f).unwrap();
        let a = family_union(fam, n);
        assert(a.copied == u.copied) by {
            if a.copied {
                let j = choose|j: int| 0 <= j < n && #[trigger] fam(j).copied;
                assert(perms_of(e, SParameter::Perm(pv[j]), f).unwrap().copied);
            }
            if u.copied {
                let j = choose|j: int| 0 <= j < n && perms_of(e, SParameter::Perm(#[trigger] pv[j]), f).unwrap().copied;
                assert(fam(j).copied);
            }
        }
        assert(a.shared_from =~= u.shared_from) by {
            assert forall|p: SPlace| a.shared_from.contains(p) <==> u.shared_from.contains(p) by {
                if a.shared_from.contains(p) {
                    let j = choose|j: int| 0 <= j < n && #[trigger] fam(j).shared_from.contains(p);
                    assert(perms_of(e, SParameter::Perm(pv[j]), f).unwrap().shared_from.contains(p));
                }
                if u.shared_from.contains(p) {
                    let j = choose|j: int| 0 <= j < n && perms_of(e, SParameter::Perm(#[trigger] pv[j]), f).unwrap().shared_from.contains(p);
                    assert(fam(j).shared_from.contains(p));
                }
            }
        }
        assert(a.leased_from =~= u.leased_from) by {
            assert forall|p: SPlace| a.leased_from.contains(p) <==> u.leased_from.contains(p) by {
                if a.leased_from.contains(p) {
                    let j = choose|j: int| 0 <= j < n && #[trigger] fam(j).leased_from.contains(p);
                    assert(perms_of(e, SParameter::Perm(pv[j]), f).unwrap().leased_from.contains(p));
                }
                if u.leased_from.contains(p) {
                    let j = choose|j: int| 0 <= j < n && perms_of(e, SParameter::Perm(#[trigger] pv[j]), f).unwrap().leased_from.contains(p);
                    assert(fam(j).leased_from.contains(p));
                }
            }
        }
        assert(a.variables =~= u.variables) by {
            assert forall|v: UniversalVar| a.variables.contains(v) <==> u.variables.contains(v) by {
                if a.variables.contains(v) {
                    let j = choose|j: int| 0 <= j < n && #[trigger] fam(j).variables.contains(v);
                    assert(perms_of(e, SParameter::Perm(pv[j]), f).unwrap().variables.contains(v));
                }
                if u.variables.contains(v) {
                    let j = choose|j: int| 0 <= j < n && perms_of(e, SParameter::Perm(#[trigger] pv[j]), f).unwrap().variables.contains(v);
                    assert(fam(j).variables.contains(v));
                }
            }
        }
    }
    Some(acc)
}

fn places_perms_exec(env: &Env, places: &Vec<Place>, fuel: usize) -> (r: Option<Perms>)
    ensures
        opt_perms(r) == places_perms(env@, place_set(places@), fuel as nat),
    decreases fuel, 1nat,
{
    let ghost e = env@;
    let ghost f = fuel as nat;
    let ghost s = place_set(places@);
    let ghost fam = |j: int| place_perms(e, places@[j]@, f).unwrap();
    proof {
        lemma_family_union_zero(fam);
    }
    let mut acc = Perms::my();
    let mut i: usize = 0;
    while i < places.len()
        invariant
            e == env@,
            f == fuel as nat,
            s == place_set(places@),
            fam == (|j: int| place_perms(e, places@[j]@, f).unwrap()),
            i <= places@.len(),
            forall|j: int| 0 <= j < i ==> place_perms(e, #[trigger] places@[j]@, f) is Some,
            acc@ == family_union(fam, i as int),
        decreases places.len() - i,
    {
        let ghost q = places@[i as int]@;
        proof {
            lemma_place_set_contains(places@, q);
            assert(s.contains(q));
        }
        match place_perms_exec(env, &places[i], fuel) {
            None => return None,
            Some(p) => {
                proof {
                    lemma_family_union_step(fam, i as int);
                }
                acc = acc.union(&p);
            },
        }
        i = i + 1;
    }
    proof {
        assert forall|q: SPlace| #[trigger] s.contains(q) implies place_perms(e, q, f) is Some by {
            lemma_place_set_contains(places@, q);
            let j = choose|j: int| 0 <= j < places@.len() && #[trigger] places@[j]@ == q;
            assert(place_perms(e, places@[j]@, f) is Some);
        }
        let n = places@.len() as int;
        let u = places_perms(e, s, f).unwrap();
        let a = family_union(fam, n);
        assert(a.copied == u.copied) by {
            if a.copied {
                let j = choose|j: int| 0 <= j < n && #[trigger] fam(j).copied;
                lemma_place_set_contains(places@, places@[j]@);
                assert(s.contains(places@[j]@));
            }
            if u.copied {
                let q = choose|q: SPlace| #[trigger] s.contains(q) && place_perms(e, q, f).unwrap().copied;
                lemma_place_set_contains(places@, q);
                let j = choose|j: int| 0 <= j < places@.len() && #[trigger] places@[j]@ == q;
                assert(fam(j).copied);
            }
        }
        assert(a.shared_from =~= u.shared_from) by {
            assert forall|p: SPlace| a.shared_from.contains(p) <==> u.shared_from.contains(p) by {
                if a.shared_from.contains(p) {
                    let j = choose|j: int| 0 <= j < n && #[trigger] fam(j).shared_from.contains(p);
                    lemma_place_set_contains(places@, places@[j]@);
                    assert(s.contains(places@[j]@));
                }
                if u.shared_from.contains(p) {
                    let q = choose|q: SPlace| #[trigger] s.contains(q) && place_perms(e, q, f).unwrap().shared_from.contains(p);
                    lemma_place_set_contains(places@, q);
                    let j = choose|j: int| 0 <= j < places@.len() && #[trigger] places@[j]@ == q;
                    assert(fam(j).shared_from.contains(p));
                }
            }
        }
        assert(a.leased_from =~= u.leased_from) by {
            assert forall|p: SPlace| a.leased_from.contains(p) <==> u.leased_from.contains(p) by {
                if a.leased_from.contains(p) {
                    let j = choose|j: int| 0 <= j < n && #[trigger] fam(j).leased_from.contains(p);
                    lemma_place_set_contains(places@, places@[j]@);
                    assert(s.contains(places@[j]@));
                }
                if u.leased_from.contains(p) {
                    let q = choose|q: SPlace| #[trigger] s.contains(q) && place_perms(e, q, f).unwrap().leased_from.contains(p);
                    lemma_place_set_contains(places@, q);
                    let j = choose|j: int| 0 <= j < places@.len() && #[trigger] places@[j]@ == q;
                    assert(fam(j).leased_from.contains(p));
                }
            }
        }
        assert(a.variables =~= u.variables) by {
            assert forall|v: UniversalVar| a.variables.contains(v) <==> u.variables.contains(v) by {
                if a.variables.contains(v) {
                    let j = choose|j: int| 0 <= j < n && #[trigger] fam(j).variables.contains(v);
                    lemma_place_set_contains(places@, places@[j]@);
                    assert(s.contains(places@[j]@));
                }
                if u.variables.contains(v) {
                    let q = choose|q: SPlace| #[trigger] s.contains(q) && place_perms(e, q, f).unwrap().variables.contains(v);
                    lemma_place_set_contains(places@, q);
                    let j = choose|j: int| 0 <= j < places@.len() && #[trigger] places@[j]@ == q;
                    assert(fam(j).variables.contains(v));
                }
            }
        }
    }
    Some(acc)
}

fn place_perms_exec(env: &Env, place: &Place, fuel: usize) -> (r: Option<Perms>)
    ensures
        opt_perms(r) == place_perms(env@, place@, fuel as nat),
    decreases fuel, 0nat,
{
    if fuel == 0 {
        return None;
    }
    match env.place_ty(place) {
        Err(_) => None,
        Ok(t) => {
            let tp = Parameter::Ty(t);
            assert(tp@ == ty_param(t@));
            perms(env, &tp, fuel - 1)
        },
    }
}

/// The summary of `a` with the context `cx` applied to its permissions,
/// together with the kind of its data: a permission has no data, an
/// applied permission continues into its type with its summary applied, a
/// universal type variable or a named type is the data itself. As types
/// have no alternatives, there is exactly one such pair when there is any.
pub open spec fn lien_data_of(env: SEnv, cx: SPerms, a: SParameter, fuel: nat) -> Option<(SPerms, STyData)>
    decreases param_size(a),
{
    match a {
        SParameter::Perm(q) => match perms_of(env, SParameter::Perm(q), fuel) {
            Some(p) => Some((apply_perms_spec(env, cx, p), STyData::NoData)),
            None => None,
        },
        SParameter::Ty(t) => match t {
            STy::ApplyPerm(l, r) => match perms_of(env, SParameter::Perm(l), fuel) {
                Some(pl) => lien_data_of(env, apply_perms_spec(env, cx, pl), SParameter::Ty(*r), fuel),
                None => None,
            },
            STy::Var(Variable::UniversalVar(v)) => Some((cx, STyData::Var(v))),
            STy::Var(_) => None,
            STy::NamedTy(n) => Some((cx, STyData::NamedTy(n))),
        },
    }
}

/// The lien data of `a` in the context `perms_cx` (see [`lien_data_of`]).
pub fn lien_datas(env: &Env, perms_cx: &Perms, a: &Parameter, fuel: usize) -> (r: Option<LienData>)
    ensures
        match lien_data_of(env@, perms_cx@, a@, fuel as nat) {
            None => r is None,
            Some(d) => r matches Some(ld) && ld.perms@ == d.0 && ld.data@ == d.1,
        },
    decreases param_size(a@),
{
    match a {
        Parameter::Perm(q) => match perms(env, a, fuel) {
            Some(p) => Some(LienData { perms: apply_perms(env, perms_cx, &p), data: TyData::NoData }),
            None => None,
        },
        Parameter::Ty(t) => match t {
            Ty::ApplyPerm(l, r) => {
                let lp = Parameter::Perm(l.copy());
                let rp = Parameter::Ty((**r).copy());
                assert(a@ == SParameter::Ty(STy::ApplyPerm(l@, Box::new(r@))));
                assert(lp@ == SParameter::Perm(l@));
                assert(rp@ == SParameter::Ty(r@));
                match perms(env, &lp, fuel) {
                    Some(pl) => lien_datas(env, &apply_perms(env, perms_cx, &pl), &rp, fuel),
                    None => None,
                }
            },
            Ty::Var(v) => {
                assert(a@ == SParameter::Ty(STy::Var(*v)));
                match v {
                    Variable::UniversalVar(u) => Some(LienData { perms: perms_cx.copy(), data: TyData::Var(*u) }),
                    _ => None,
                }
            },
            Ty::NamedTy(n) => {
                assert(a@ == SParameter::Ty(STy::NamedTy(n@)));
                Some(LienData { perms: perms_cx.copy(), data: TyData::NamedTy(n.copy()) })
            },
        },
    }
}

/// True if `a` has a summary and it is known to be copy.
pub fn perms_is_copy(env: &Env, a: &Parameter, fuel: usize) -> (r: bool)
    ensures
        r == (perms_of(env@, a@, fuel as nat) matches Some(p) && crate::perms::perms_is_copy(env@, p)),
{
    match perms(env, a, fuel) {
        Some(p) => p.is_copy(env),
        None => false,
    }
}

/// True if `a` has a summary and it is known to be moved.
pub fn perms_is_moved(env: &Env, a: &Parameter, fuel: usize) -> (r: bool)
    ensures
        r == (perms_of(env@, a@, fuel as nat) matches Some(p) && crate::perms::perms_is_moved(env@, p)),
{
    match perms(env, a, fuel) {
        Some(p) => p.is_moved(env),
        None => false,
    }
}

/// True if `a` has a summary and it is known to be leased.
pub fn perms_is_leased(env: &Env, a: &Parameter, fuel: usize) -> (r: bool)
    ensures
        r == (perms_of(env@, a@, fuel as nat) matches Some(p) && crate::perms::perms_is_leased(env@, p)),
{
    match perms(env, a, fuel) {
        Some(p) => p.is_leased(env),
        None => false,
    }
}

/// `my` applied to a permission leaves its summary as it is.
pub proof fn law_my_applied_keeps_summary(env: SEnv, p: SPerm, fuel: nat)
    ensures
        perms_of(env, SParameter::Perm(SPerm::Apply(Box::new(SPerm::Given), Box::new(p))), fuel)
            == perms_of(env, SParameter::Perm(p), fuel),
{
    let a = SParameter::Perm(SPerm::Apply(Box::new(SPerm::Given), Box::new(p)));
    assert(perms_of(env, SParameter::Perm(SPerm::Given), fuel) == Some(my_perms()));
    match perms_of(env, SParameter::Perm(p), fuel) {
        None => {
            assert(perms_of(env, a, fuel) is None);
        },
        Some(r) => {
            crate::perms::law_union_my(r);
            crate::perms::law_union_commutative(my_perms(), r);
            assert(apply_perms_spec(env, my_perms(), r) == r);
            assert(perms_of(env, a, fuel) == Some(apply_perms_spec(env, my_perms(), r)));
        },
    }
}

/// Applying `our` forgets what it is applied to: the summary is `our`'s.
pub proof fn law_our_forgets_what_it_is_applied_to(env: SEnv, p: SPerm, fuel: nat)
    ensures
        perms_of(env, SParameter::Perm(SPerm::Apply(Box::new(p), Box::new(SPerm::Shared))), fuel)
            == (if perms_of(env, SParameter::Perm(p), fuel) is Some { Some(our_perms()) } else { None }),
{
    let a = SParameter::Perm(SPerm::Apply(Box::new(p), Box::new(SPerm::Shared)));
    assert(perms_of(env, SParameter::Perm(SPerm::Shared), fuel) == Some(our_perms()));
    assert(crate::perms::perms_is_copy(env, our_perms()));
    match perms_of(env, SParameter::Perm(p), fuel) {
        None => {
            assert(perms_of(env, a, fuel) is None);
        },
        Some(l) => {
            assert(apply_perms_spec(env, l, our_perms()) == our_perms());
            assert(perms_of(env, a, fuel) == Some(apply_perms_spec(env, l, our_perms())));
        },
    }
}

/// `our` is copy and `my` is moved.
pub proof fn law_our_is_copy_my_is_moved(env: SEnv, fuel: nat)
    ensures
        perms_of(env, SParameter::Perm(SPerm::Shared), fuel) matches Some(p) && crate::perms::perms_is_copy(env, p),
        perms_of(env, SParameter::Perm(SPerm::Given), fuel) matches Some(p) && crate::perms::perms_is_moved(env, p),
{
}

} // verus!
