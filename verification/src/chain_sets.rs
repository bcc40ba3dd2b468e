//! The lien chains of a type or permission.
//!
//! Walking a permission yields pairs `(chain, pending)`: the liens already
//! in force, and the liens still to be applied once the permission is
//! placed in context. Borrowing from a place looks up the place's type and
//! continues with it, which spends one unit of fuel. The walk fails when a
//! place has no type or a variable is not universal.
use vstd::prelude::*;

use crate::env::{is_class_name, is_value_name, Env, SEnv};
use crate::grammar::{
    lemma_perms_view, lemma_place_set_contains, parameters_view, perms_view, place_set, Kind,
    NamedTy, Parameter, Perm, Place, SNamedTy, SParameter, SPerm, SPlace, STy, Ty, Variable,
};
use crate::lien_chains::{
    apply_all_spec, apply_lien_spec, collapse, collapse_spec, collapse_to_pending, first_covered,
    pairs_view, Lien, LienChain, SLien, STyChain, TyChain,
};
use crate::places::place_ty_of;
use crate::predicates::{lemma_param_size_pos, param_size, perm_size, perms_size, ty_param, ty_size};

verus! {

/// How a permission reaches the places it names.
#[derive(PartialEq, Eq, Structural, Clone, Copy)]
pub enum PlaceLien {
    /// Moved out of the places.
    Moved,
    /// Shared from the places.
    Shared,
    /// Leased from the places.
    Leased,
}

/// The pairs of a list, as a set of pairs of chains.
pub open spec fn pset(v: Seq<(LienChain, LienChain)>) -> Set<(Seq<SLien>, Seq<SLien>)> {
    pairs_view(v).to_set()
}

pub open spec fn opt_pset(r: Option<Vec<(LienChain, LienChain)>>) -> Option<Set<(Seq<SLien>, Seq<SLien>)>> {
    match r {
        None => None,
        Some(v) => Some(pset(v@)),
    }
}

/// `chain` with the pending liens up to the first one `l` covers applied,
/// then `l`; paired with the pending liens after the covered one.
pub open spec fn lien_pair(env: SEnv, chain: Seq<SLien>, l: SLien, pending: Seq<SLien>) -> (Seq<SLien>, Seq<SLien>) {
    let k = first_covered(l, pending);
    (
        apply_lien_spec(env, apply_all_spec(env, chain, pending.subrange(0, k)), l),
        if k < pending.len() {
            pending.subrange(k + 1, pending.len() as int)
        } else {
            Seq::empty()
        },
    )
}

/// Each pair `(a, b)` of `ps` collapsed into `a` with `b` applied, paired
/// with `c`.
pub open spec fn collapsed(env: SEnv, c: Seq<SLien>, ps: Set<(Seq<SLien>, Seq<SLien>)>) -> Set<(Seq<SLien>, Seq<SLien>)> {
    Set::new(|x: (Seq<SLien>, Seq<SLien>)| exists|y: (Seq<SLien>, Seq<SLien>)| #[trigger] ps.contains(y) && x == (c, apply_all_spec(env, y.0, y.1)))
}

/// The pairs of a variable: a permission variable is applied as a lien, a
/// type variable changes nothing; other variables have none.
pub open spec fn var_pairs(env: SEnv, chain: Seq<SLien>, pending: Seq<SLien>, v: Variable) -> Option<Set<(Seq<SLien>, Seq<SLien>)>> {
    match v {
        Variable::UniversalVar(u) => if u.kind == Kind::Perm {
            Some(set![lien_pair(env, chain, SLien::Var(u), pending)])
        } else {
            Some(set![(chain, pending)])
        },
        _ => None,
    }
}

/// The chain collapsed into, and the pending liens passed on to the type
/// of, a place reached as `k`.
pub open spec fn place_split(env: SEnv, k: PlaceLien, chain: Seq<SLien>, pending: Seq<SLien>, q: SPlace) -> (Seq<SLien>, Seq<SLien>) {
    match k {
        PlaceLien::Moved => (chain, pending),
        PlaceLien::Shared => (seq![SLien::Shared(q)], Seq::empty()),
        PlaceLien::Leased => lien_pair(env, chain, SLien::Leased(q), pending),
    }
}

pub proof fn lemma_perms_size_each(ps: Seq<SPerm>)
    ensures
        forall|j: int| 0 <= j < ps.len() ==> perm_size(#[trigger] ps[j]) <= perms_size(ps),
    decreases ps.len(),
{
    if ps.len() > 0 {
        lemma_perms_size_each(ps.drop_last());
        assert forall|j: int| 0 <= j < ps.len() implies perm_size(#[trigger] ps[j]) <= perms_size(ps) by {
            if j < ps.len() - 1 {
                assert(ps[j] == ps.drop_last()[j]);
            }
        }
    }
}

/// The pairs `(chain, pending)` of parameter `a` reached in the context of
/// `chain` and `pending`, or `None` if the walk fails or the fuel runs out.
pub open spec fn chain_pairs(env: SEnv, chain: Seq<SLien>, pending: Seq<SLien>, a: SParameter, fuel: nat) -> Option<Set<(Seq<SLien>, Seq<SLien>)>>
    decreases fuel, 2 * param_size(a),
{
    match a {
        SParameter::Ty(t) => match t {
            STy::NamedTy(_) => Some(set![(chain, pending)]),
            STy::Var(v) => var_pairs(env, chain, pending, v),
            STy::ApplyPerm(q, inner) => match chain_pairs(env, chain, pending, SParameter::Perm(q), fuel) {
                None => None,
                Some(ps) => apply_pairs(env, ps, SParameter::Ty(*inner), fuel),
            },
        },
        SParameter::Perm(q) => match q {
            SPerm::Given => Some(set![(chain, pending)]),
            SPerm::Shared => Some(set![(seq![SLien::Our], Seq::empty())]),
            SPerm::Mv(s) => places_pairs(env, PlaceLien::Moved, chain, pending, s, fuel),
            SPerm::Rf(s) => places_pairs(env, PlaceLien::Shared, chain, pending, s, fuel),
            SPerm::Mt(s) => places_pairs(env, PlaceLien::Leased, chain, pending, s, fuel),
            SPerm::Var(v) => var_pairs(env, chain, pending, v),
            SPerm::Apply(l, r) => match chain_pairs(env, chain, pending, SParameter::Perm(*l), fuel) {
                None => None,
                Some(ps) => apply_pairs(env, ps, SParameter::Perm(*r), fuel),
            },
            SPerm::Or(ps) => or_pairs(env, chain, pending, ps, fuel),
        },
    }
}

/// The pairs of `a` reached from each pair of `ps`, put together.
pub open spec fn apply_pairs(env: SEnv, ps: Set<(Seq<SLien>, Seq<SLien>)>, a: SParameter, fuel: nat) -> Option<Set<(Seq<SLien>, Seq<SLien>)>>
    decreases fuel, 2 * param_size(a) + 1,
{
    if forall|y: (Seq<SLien>, Seq<SLien>)| #[trigger] ps.contains(y) ==> chain_pairs(env, y.0, y.1, a, fuel) is Some {
        Some(Set::new(|x: (Seq<SLien>, Seq<SLien>)| exists|y: (Seq<SLien>, Seq<SLien>)| #[trigger] ps.contains(y)
            && chain_pairs(env, y.0, y.1, a, fuel).unwrap().contains(x)))
    } else {
        None
    }
}

/// The pairs of each alternative of an `Or`, put together.
pub open spec fn or_pairs(env: SEnv, chain: Seq<SLien>, pending: Seq<SLien>, ps: Seq<SPerm>, fuel: nat) -> Option<Set<(Seq<SLien>, Seq<SLien>)>>
    decreases fuel, 2 * perms_size(ps) + 1,
{
    proof {
        lemma_perms_size_each(ps);
    }
    if forall|j: int| 0 <= j < ps.len() ==> chain_pairs(env, chain, pending, SParameter::Perm(#[trigger] ps[j]), fuel) is Some {
        Some(Set::new(|x: (Seq<SLien>, Seq<SLien>)| exists|j: int| 0 <= j < ps.len()
            && chain_pairs(env, chain, pending, SParameter::Perm(#[trigger] ps[j]), fuel).unwrap().contains(x)))
    } else {
        None
    }
}

/// The pairs of the places of `s`, each reached as `k`, put together.
pub open spec fn places_pairs(env: SEnv, k: PlaceLien, chain: Seq<SLien>, pending: Seq<SLien>, s: Set<SPlace>, fuel: nat) -> Option<Set<(Seq<SLien>, Seq<SLien>)>>
    decreases fuel, 1nat,
{
    if forall|q: SPlace| #[trigger] s.contains(q) ==> place_pairs(env, k, chain, pending, q, fuel) is Some {
        Some(Set::new(|x: (Seq<SLien>, Seq<SLien>)| exists|q: SPlace| #[trigger] s.contains(q)
            && place_pairs(env, k, chain, pending, q, fuel).unwrap().contains(x)))
    } else {
        None
    }
}

/// The pairs of one place reached as `k`: the pairs of its type (looked up
/// with one less unit of fuel), collapsed into the chain of the place.
pub open spec fn place_pairs(env: SEnv, k: PlaceLien, chain: Seq<SLien>, pending: Seq<SLien>, q: SPlace, fuel: nat) -> Option<Set<(Seq<SLien>, Seq<SLien>)>>
    decreases fuel, 0nat,
{
    if fuel == 0 {
        None
    } else {
        match place_ty_of(env, q) {
            Err(_) => None,
            Ok(t) => {
                let split = place_split(env, k, chain, pending, q);
                match chain_pairs(env, Seq::empty(), split.1, ty_param(t), (fuel - 1) as nat) {
                    None => None,
                    Some(ps) => Some(collapsed(env, split.0, ps)),
                }
            },
        }
    }
}

pub proof fn lemma_pset_contains(v: Seq<(LienChain, LienChain)>, x: (Seq<SLien>, Seq<SLien>))
    ensures
        pset(v).contains(x) <==> exists|i: int| 0 <= i < v.len() && x == (#[trigger] v[i].0@, v[i].1@),
{
    let pv = pairs_view(v);
    assert(pv.len() == v.len());
    if pset(v).contains(x) {
        let i = choose|i: int| 0 <= i < pv.len() && pv[i] == x;
        assert(pv[i] == (v[i].0@, v[i].1@));
    }
    if exists|i: int| 0 <= i < v.len() && x == (#[trigger] v[i].0@, v[i].1@) {
        let i = choose|i: int| 0 <= i < v.len() && x == (#[trigger] v[i].0@, v[i].1@);
        assert(pv[i] == x);
        assert(pv.contains(x));
    }
}

pub proof fn lemma_pset_append(a: Seq<(LienChain, LienChain)>, b: Seq<(LienChain, LienChain)>)
    ensures
        pset(a + b) == pset(a) + pset(b),
{
    assert(pairs_view(a + b) =~= pairs_view(a) + pairs_view(b));
    let pa = pairs_view(a);
    let pb = pairs_view(b);
    assert forall|x: (Seq<SLien>, Seq<SLien>)| (pa + pb).to_set().contains(x) <==> (pa.to_set() + pb.to_set()).contains(x) by {
        if (pa + pb).contains(x) {
            let i = choose|i: int| 0 <= i < (pa + pb).len() && (pa + pb)[i] == x;
            if i < pa.len() {
                assert(pa[i] == x);
                assert(pa.contains(x));
            } else {
                assert(pb[i - pa.len()] == x);
                assert(pb.contains(x));
            }
        }
        if pa.contains(x) {
            let i = choose|i: int| 0 <= i < pa.len() && pa[i] == x;
            assert((pa + pb)[i] == x);
        }
        if pb.contains(x) {
            let i = choose|i: int| 0 <= i < pb.len() && pb[i] == x;
            assert((pa + pb)[i + pa.len()] == x);
        }
    }
    assert((pa + pb).to_set() =~= pa.to_set() + pb.to_set());
}

proof fn lemma_pset_single(c: LienChain, p: LienChain)
    ensures
        pset(seq![(c, p)]) == set![(c@, p@)],
{
    lemma_pset_contains(seq![(c, p)], (c@, p@));
    assert forall|x: (Seq<SLien>, Seq<SLien>)| pset(seq![(c, p)]).contains(x) <==> x == (c@, p@) by {
        lemma_pset_contains(seq![(c, p)], x);
        if x == (c@, p@) {
            assert(seq![(c, p)][0].0@ == c@);
        }
    }
    assert(pset(seq![(c, p)]) =~= set![(c@, p@)]);
}

/// What [`collapse_to_pending`] returns, as a set.
proof fn lemma_collapsed(env: SEnv, c: LienChain, ps: Seq<(LienChain, LienChain)>, r: Seq<(LienChain, LienChain)>)
    requires
        r.len() == ps.len(),
        forall|i: int| 0 <= i < ps.len() ==> (#[trigger] r[i]).0@ == c@ && r[i].1@ == apply_all_spec(env, ps[i].0@, ps[i].1@),
    ensures
        pset(r) == collapsed(env, c@, pset(ps)),
{
    assert forall|x: (Seq<SLien>, Seq<SLien>)| pset(r).contains(x) <==> collapsed(env, c@, pset(ps)).contains(x) by {
        lemma_pset_contains(r, x);
        if pset(r).contains(x) {
            let i = choose|i: int| 0 <= i < r.len() && x == (#[trigger] r[i].0@, r[i].1@);
            let y = (ps[i].0@, ps[i].1@);
            lemma_pset_contains(ps, y);
            assert(pset(ps).contains(y));
        }
        if collapsed(env, c@, pset(ps)).contains(x) {
            let y = choose|y: (Seq<SLien>, Seq<SLien>)| #[trigger] pset(ps).contains(y) && x == (c@, apply_all_spec(env, y.0, y.1));
            lemma_pset_contains(ps, y);
            let i = choose|i: int| 0 <= i < ps.len() && y == (#[trigger] ps[i].0@, ps[i].1@);
            assert(x == (r[i].0@, r[i].1@));
        }
    }
    assert(pset(r) =~= collapsed(env, c@, pset(ps)));
}

/// The list holding the one pair `(c, p)`.
fn single(c: LienChain, p: LienChain) -> (r: Vec<(LienChain, LienChain)>)
    ensures
        pset(r@) == set![(c@, p@)],
{
    let r = vec![(c, p)];
    proof {
        assert(r@.len() == 1);
        lemma_pset_single(r@[0].0, r@[0].1);
        assert(r@ =~= seq![(r@[0].0, r@[0].1)]);
    }
    r
}

fn var_pairs_exec(env: &Env, chain: &LienChain, pending: &LienChain, v: &Variable) -> (r: Option<Vec<(LienChain, LienChain)>>)
    ensures
        opt_pset(r) == var_pairs(env@, chain@, pending@, *v),
{
    match v {
        Variable::UniversalVar(u) => {
            if u.kind == Kind::Perm {
                let (c, p) = chain.apply_var(env, *u, pending);
                proof {
                    assert((c@, p@) == lien_pair(env@, chain@, SLien::Var(*u), pending@));
                }
                Some(single(c, p))
            } else {
                let c = chain.copy();
                let p = pending.copy();
                Some(single(c, p))
            }
        },
        _ => None,
    }
}

/// The pairs `(chain, pending)` of `a` reached in the context of `chain`
/// and `pending`: owned permissions and named types change nothing; `our`
/// and shares start a chain of their own; moves, shares and leases of
/// places continue with the places' types; a permission variable is
/// applied as a lien; applied permissions and `Or` combine their parts.
/// `None` if a place has no type, a variable is not universal, or the fuel
/// (one unit per place looked up) runs out.
pub fn lien_chain_pairs(env: &Env, chain: &LienChain, pending: &LienChain, a: &Parameter, fuel: usize) -> (r: Option<Vec<(LienChain, LienChain)>>)
    ensures
        opt_pset(r) == chain_pairs(env@, chain@, pending@, a@, fuel as nat),
    decreases fuel, 2 * param_size(a@),
{
    match a {
        Parameter::Ty(t) => match t {
            Ty::NamedTy(n) => {
                assert(a@ == SParameter::Ty(STy::NamedTy(n@)));
                let c = chain.copy();
                let p = pending.copy();
                Some(single(c, p))
            },
            Ty::Var(v) => {
                assert(a@ == SParameter::Ty(STy::Var(*v)));
                var_pairs_exec(env, chain, pending, v)
            },
            Ty::ApplyPerm(q, inner) => {
                let qp = Parameter::Perm(q.copy());
                let tp = Parameter::Ty((**inner).copy());
                assert(a@ == SParameter::Ty(STy::ApplyPerm(q@, Box::new(inner@))));
                assert(qp@ == SParameter::Perm(q@));
                assert(tp@ == SParameter::Ty(inner@));
                match lien_chain_pairs(env, chain, pending, &qp, fuel) {
                    None => None,
                    Some(ps) => apply_pairs_exec(env, &ps, &tp, fuel),
                }
            },
        },
        Parameter::Perm(q) => match q {
            Perm::Given => {
                let c = chain.copy();
                let p = pending.copy();
                Some(single(c, p))
            },
            Perm::Shared => {
                let c = LienChain::our();
                let p = LienChain::my();
                Some(single(c, p))
            },
            Perm::Mv(s) => {
                assert(a@ == SParameter::Perm(SPerm::Mv(place_set(s@))));
                places_pairs_exec(env, PlaceLien::Moved, chain, pending, s, fuel)
            },
            Perm::Rf(s) => {
                assert(a@ == SParameter::Perm(SPerm::Rf(place_set(s@))));
                places_pairs_exec(env, PlaceLien::Shared, chain, pending, s, fuel)
            },
            Perm::Mt(s) => {
                assert(a@ == SParameter::Perm(SPerm::Mt(place_set(s@))));
                places_pairs_exec(env, PlaceLien::Leased, chain, pending, s, fuel)
            },
            Perm::Var(v) => {
                assert(a@ == SParameter::Perm(SPerm::Var(*v)));
                var_pairs_exec(env, chain, pending, v)
            },
            Perm::Apply(l, rr) => {
                let lp = Parameter::Perm((**l).copy());
                let rp = Parameter::Perm((**rr).copy());
                assert(a@ == SParameter::Perm(SPerm::Apply(Box::new(l@), Box::new(rr@))));
                assert(lp@ == SParameter::Perm(l@));
                assert(rp@ == SParameter::Perm(rr@));
                match lien_chain_pairs(env, chain, pending, &lp, fuel) {
                    None => None,
                    Some(ps) => apply_pairs_exec(env, &ps, &rp, fuel),
                }
            },
            Perm::Or(ps) => {
                assert(a@ == SParameter::Perm(SPerm::Or(perms_view(ps@))));
                or_pairs_exec(env, chain, pending, ps, fuel)
            },
        },
    }
}

/// The pairs of `a` reached from each pair of `ps`, put together.
fn apply_pairs_exec(env: &Env, ps: &Vec<(LienChain, LienChain)>, a: &Parameter, fuel: usize) -> (r: Option<Vec<(LienChain, LienChain)>>)
    ensures
        opt_pset(r) == apply_pairs(env@, pset(ps@), a@, fuel as nat),
    decreases fuel, 2 * param_size(a@) + 1,
{
    let ghost e = env@;
    let ghost f = fuel as nat;
    let ghost s = pset(ps@);
    let mut acc: Vec<(LienChain, LienChain)> = Vec::new();
    let mut i: usize = 0;
    while i < ps.len()
        invariant
            e == env@,
            f == fuel as nat,
            s == pset(ps@),
            i <= ps@.len(),
            forall|j: int| 0 <= j < i ==> chain_pairs(e, (#[trigger] ps@[j]).0@, ps@[j].1@, a@, f) is Some,
            forall|x: (Seq<SLien>, Seq<SLien>)| pset(acc@).contains(x) <==> exists|j: int| 0 <= j < i
                && chain_pairs(e, (#[trigger] ps@[j]).0@, ps@[j].1@, a@, f).unwrap().contains(x),
        decreases ps.len() - i,
    {
        match lien_chain_pairs(env, &ps[i].0, &ps[i].1, a, fuel) {
            None => {
                proof {
                    let y = (ps@[i as int].0@, ps@[i as int].1@);
                    lemma_pset_contains(ps@, y);
                    assert(s.contains(y));
                }
                return None;
            },
            Some(mut sub) => {
                let ghost old_acc = acc@;
                let ghost subv = sub@;
                acc.append(&mut sub);
                proof {
                    lemma_pset_append(old_acc, subv);
                    assert(acc@ == old_acc + subv);
                    assert forall|x: (Seq<SLien>, Seq<SLien>)| pset(acc@).contains(x) <==> exists|j: int| 0 <= j < i + 1
                        && chain_pairs(e, (#[trigger] ps@[j]).0@, ps@[j].1@, a@, f).unwrap().contains(x) by {
                        if pset(old_acc).contains(x) {
                            let j = choose|j: int| 0 <= j < i && chain_pairs(e, (#[trigger] ps@[j]).0@, ps@[j].1@, a@, f).unwrap().contains(x);
                        }
                        if exists|j: int| 0 <= j < i + 1 && chain_pairs(e, (#[trigger] ps@[j]).0@, ps@[j].1@, a@, f).unwrap().contains(x) {
                            let j = choose|j: int| 0 <= j < i + 1 && chain_pairs(e, (#[trigger] ps@[j]).0@, ps@[j].1@, a@, f).unwrap().contains(x);
                            if j < i {
                                assert(pset(old_acc).contains(x));
                            }
                        }
                    }
                }
            },
        }
        i = i + 1;
    }
    proof {
        assert forall|y: (Seq<SLien>, Seq<SLien>)| #[trigger] s.contains(y) implies chain_pairs(e, y.0, y.1, a@, f) is Some by {
            lemma_pset_contains(ps@, y);
            let j = choose|j: int| 0 <= j < ps@.len() && y == (#[trigger] ps@[j].0@, ps@[j].1@);
            assert(chain_pairs(e, ps@[j].0@, ps@[j].1@, a@, f) is Some);
        }
        let u = Set::new(|x: (Seq<SLien>, Seq<SLien>)| exists|y: (Seq<SLien>, Seq<SLien>)| #[trigger] s.contains(y)
            && chain_pairs(e, y.0, y.1, a@, f).unwrap().contains(x));
        assert forall|x: (Seq<SLien>, Seq<SLien>)| pset(acc@).contains(x) <==> u.contains(x) by {
            if pset(acc@).contains(x) {
                let j = choose|j: int| 0 <= j < i && chain_pairs(e, (#[trigger] ps@[j]).0@, ps@[j].1@, a@, f).unwrap().contains(x);
                let y = (ps@[j].0@, ps@[j].1@);
                lemma_pset_contains(ps@, y);
                assert(s.contains(y));
            }
            if u.contains(x) {
                let y = choose|y: (Seq<SLien>, Seq<SLien>)| #[trigger] s.contains(y) && chain_pairs(e, y.0, y.1, a@, f).unwrap().contains(x);
                lemma_pset_contains(ps@, y);
                let j = choose|j: int| 0 <= j < ps@.len() && y == (#[trigger] ps@[j].0@, ps@[j].1@);
                assert(chain_pairs(e, ps@[j].0@, ps@[j].1@, a@, f).unwrap().contains(x));
            }
        }
        assert(pset(acc@) =~= u);
    }
    Some(acc)
}

/// The pairs of each alternative `ps[..]` of an `Or`, put together.
fn or_pairs_exec(env: &Env, chain: &LienChain, pending: &LienChain, ps: &Vec<Perm>, fuel: usize) -> (r: Option<Vec<(LienChain, LienChain)>>)
    ensures
        opt_pset(r) == or_pairs(env@, chain@, pending@, perms_view(ps@), fuel as nat),
    decreases fuel, 2 * perms_size(perms_view(ps@)) + 1,
{
    let ghost e = env@;
    let ghost f = fuel as nat;
    let ghost pv = perms_view(ps@);
    proof {
        lemma_perms_view(ps@);
        lemma_perms_size_each(pv);
    }
    let mut acc: Vec<(LienChain, LienChain)> = Vec::new();
    let mut i: usize = 0;
    while i < ps.len()
        invariant
            e == env@,
            f == fuel as nat,
            pv == perms_view(ps@),
            pv.len() == ps@.len(),
            forall|j: int| 0 <= j < ps@.len() ==> #[trigger] pv[j] == ps@[j]@,
            forall|j: int| 0 <= j < pv.len() ==> perm_size(#[trigger] pv[j]) <= perms_size(pv),
            i <= ps@.len(),
            forall|j: int| 0 <= j < i ==> chain_pairs(e, chain@, pending@, SParameter::Perm(#[trigger] pv[j]), f) is Some,
            forall|x: (Seq<SLien>, Seq<SLien>)| pset(acc@).contains(x) <==> exists|j: int| 0 <= j < i
                && chain_pairs(e, chain@, pending@, SParameter::Perm(#[trigger] pv[j]), f).unwrap().contains(x),
        decreases ps.len() - i,
    {
        let qp = Parameter::Perm(ps[i].copy());
        assert(qp@ == SParameter::Perm(pv[i as int]));
        match lien_chain_pairs(env, chain, pending, &qp, fuel) {
            None => {
                return None;
            },
            Some(mut sub) => {
                let ghost old_acc = acc@;
                let ghost subv = sub@;
                acc.append(&mut sub);
                proof {
                    lemma_pset_append(old_acc, subv);
                    assert(acc@ == old_acc + subv);
                    assert forall|x: (Seq<SLien>, Seq<SLien>)| pset(acc@).contains(x) <==> exists|j: int| 0 <= j < i + 1
                        && chain_pairs(e, chain@, pending@, SParameter::Perm(#[trigger] pv[j]), f).unwrap().contains(x) by {
                        if pset(old_acc).contains(x) {
                            let j = choose|j: int| 0 <= j < i && chain_pairs(e, chain@, pending@, SParameter::Perm(#[trigger] pv[j]), f).unwrap().contains(x);
                        }
                        if exists|j: int| 0 <= j < i + 1 && chain_pairs(e, chain@, pending@, SParameter::Perm(#[trigger] pv[j]), f).unwrap().contains(x) {
                            let j = choose|j: int| 0 <= j < i + 1 && chain_pairs(e, chain@, pending@, SParameter::Perm(#[trigger] pv[j]), f).unwrap().contains(x);
                            if j < i {
                                assert(pset(old_acc).contains(x));
                            }
                        }
                    }
                }
            },
        }
        i = i + 1;
    }
    proof {
        let u = Set::new(|x: (Seq<SLien>, Seq<SLien>)| exists|j: int| 0 <= j < pv.len()
            && chain_pairs(e, chain@, pending@, SParameter::Perm(#[trigger] pv[j]), f).unwrap().contains(x));
        assert(pset(acc@) =~= u);
    }
    Some(acc)
}

/// The pairs of the places `places`, each reached as `k`, put together.
fn places_pairs_exec(env: &Env, k: PlaceLien, chain: &LienChain, pending: &LienChain, places: &Vec<Place>, fuel: usize) -> (r: Option<Vec<(LienChain, LienChain)>>)
    ensures
        opt_pset(r) == places_pairs(env@, k, chain@, pending@, place_set(places@), fuel as nat),
    decreases fuel, 1nat,
{
    let ghost e = env@;
    let ghost f = fuel as nat;
    let ghost s = place_set(places@);
    let mut acc: Vec<(LienChain, LienChain)> = Vec::new();
    let mut i: usize = 0;
    while i < places.len()
        invariant
            e == env@,
            f == fuel as nat,
            s == place_set(places@),
            i <= places@.len(),
            forall|j: int| 0 <= j < i ==> place_pairs(e, k, chain@, pending@, #[trigger] places@[j]@, f) is Some,
            forall|x: (Seq<SLien>, Seq<SLien>)| pset(acc@).contains(x) <==> exists|j: int| 0 <= j < i
                && place_pairs(e, k, chain@, pending@, #[trigger] places@[j]@, f).unwrap().contains(x),
        decreases places.len() - i,
    {
        let ghost q = places@[i as int]@;
        proof {
            lemma_place_set_contains(places@, q);
            assert(s.contains(q));
        }
        let sub = place_pairs_exec(env, k, chain, pending, &places[i], fuel);
        match sub {
            None => {
                return None;
            },
            Some(mut sub) => {
                let ghost old_acc = acc@;
                let ghost subv = sub@;
                acc.append(&mut sub);
                proof {
                    lemma_pset_append(old_acc, subv);
                    assert(acc@ == old_acc + subv);
                    assert forall|x: (Seq<SLien>, Seq<SLien>)| pset(acc@).contains(x) <==> exists|j: int| 0 <= j < i + 1
                        && place_pairs(e, k, chain@, pending@, #[trigger] places@[j]@, f).unwrap().contains(x) by {
                        if pset(old_acc).contains(x) {
                            let j = choose|j: int| 0 <= j < i && place_pairs(e, k, chain@, pending@, #[trigger] places@[j]@, f).unwrap().contains(x);
                        }
                        if exists|j: int| 0 <= j < i + 1 && place_pairs(e, k, chain@, pending@, #[trigger] places@[j]@, f).unwrap().contains(x) {
                            let j = choose|j: int| 0 <= j < i + 1 && place_pairs(e, k, chain@, pending@, #[trigger] places@[j]@, f).unwrap().contains(x);
                            if j < i {
                                assert(pset(old_acc).contains(x));
                            }
                        }
                    }
                }
            },
        }
        i = i + 1;
    }
    proof {
        assert forall|q: SPlace| #[trigger] s.contains(q) implies place_pairs(e, k, chain@, pending@, q, f) is Some by {
            lemma_place_set_contains(places@, q);
            let j = choose|j: int| 0 <= j < places@.len() && #[trigger] places@[j]@ == q;
            assert(place_pairs(e, k, chain@, pending@, places@[j]@, f) is Some);
        }
        let u = Set::new(|x: (Seq<SLien>, Seq<SLien>)| exists|q: SPlace| #[trigger] s.contains(q)
            && place_pairs(e, k, chain@, pending@, q, f).unwrap().contains(x));
        assert forall|x: (Seq<SLien>, Seq<SLien>)| pset(acc@).contains(x) <==> u.contains(x) by {
            if pset(acc@).contains(x) {
                let j = choose|j: int| 0 <= j < i && place_pairs(e, k, chain@, pending@, #[trigger] places@[j]@, f).unwrap().contains(x);
                lemma_place_set_contains(places@, places@[j]@);
                assert(s.contains(places@[j]@));
            }
            if u.contains(x) {
                let q = choose|q: SPlace| #[trigger] s.contains(q) && place_pairs(e, k, chain@, pending@, q, f).unwrap().contains(x);
                lemma_place_set_contains(places@, q);
                let j = choose|j: int| 0 <= j < places@.len() && #[trigger] places@[j]@ == q;
                assert(place_pairs(e, k, chain@, pending@, places@[j]@, f).unwrap().contains(x));
            }
        }
        assert(pset(acc@) =~= u);
    }
    Some(acc)
}

/// The pairs of one place reached as `k`.
fn place_pairs_exec(env: &Env, k: PlaceLien, chain: &LienChain, pending: &LienChain, place: &Place, fuel: usize) -> (r: Option<Vec<(LienChain, LienChain)>>)
    ensures
        opt_pset(r) == place_pairs(env@, k, chain@, pending@, place@, fuel as nat),
    decreases fuel, 0nat,
{
    if fuel == 0 {
        return None;
    }
    let t = match env.place_ty(place) {
        Err(_) => return None,
        Ok(t) => t,
    };
    let (cc, inner) = match k {
        PlaceLien::Moved => (chain.copy(), pending.copy()),
        PlaceLien::Shared => (LienChain::from_lien(Lien::shared(place)), LienChain::my()),
        PlaceLien::Leased => chain.apply_leased(env, place, pending),
    };
    assert((cc@, inner@) == place_split(env@, k, chain@, pending@, place@));
    let tp = Parameter::Ty(t);
    assert(tp@ == ty_param(t@));
    match lien_chain_pairs(env, &LienChain::my(), &inner, &tp, fuel - 1) {
        None => None,
        Some(ps) => {
            let r = collapse_to_pending(env, &cc, &ps);
            proof {
                lemma_collapsed(env@, cc, ps@, r@);
            }
            Some(r)
        },
    }
}

// ---------------------------------------------------------------------------
// Lien chains and type chains
// ---------------------------------------------------------------------------

/// The lien chains of `a` in the context `cx`: the pairs reached from
/// unique ownership with `cx` pending, each collapsed into one chain.
pub open spec fn lien_chains_of(env: SEnv, cx: Seq<SLien>, a: SParameter, fuel: nat) -> Option<Set<Seq<SLien>>> {
    match chain_pairs(env, Seq::empty(), cx, a, fuel) {
        None => None,
        Some(ps) => Some(Set::new(|c: Seq<SLien>| exists|y: (Seq<SLien>, Seq<SLien>)| #[trigger] ps.contains(y)
            && c == apply_all_spec(env, y.0, y.1))),
    }
}

pub open spec fn chain_set(v: Seq<LienChain>) -> Set<Seq<SLien>> {
    v.map_values(|c: LienChain| c@).to_set()
}

/// The lien chains of `a` in the context `cx` (see [`lien_chains_of`]);
/// `None` as for [`lien_chain_pairs`].
pub fn lien_chains(env: &Env, cx: &LienChain, a: &Parameter, fuel: usize) -> (r: Option<Vec<LienChain>>)
    ensures
        match lien_chains_of(env@, cx@, a@, fuel as nat) {
            None => r is None,
            Some(s) => r matches Some(v) && chain_set(v@) == s,
        },
{
    match lien_chain_pairs(env, &LienChain::my(), cx, a, fuel) {
        None => None,
        Some(ps) => {
            let r = collapse(env, &ps);
            proof {
                let pv = pairs_view(ps@);
                let s = pset(ps@);
                let u = Set::new(|c: Seq<SLien>| exists|y: (Seq<SLien>, Seq<SLien>)| #[trigger] s.contains(y)
                    && c == apply_all_spec(env@, y.0, y.1));
                assert forall|c: Seq<SLien>| collapse_spec(env@, pv).contains(c) <==> u.contains(c) by {
                    if collapse_spec(env@, pv).contains(c) {
                        let i = choose|i: int| 0 <= i < pv.len() && c == apply_all_spec(env@, #[trigger] pv[i].0, pv[i].1);
                        assert(pv.contains(pv[i]));
                        assert(s.contains(pv[i]));
                    }
                    if u.contains(c) {
                        let y = choose|y: (Seq<SLien>, Seq<SLien>)| #[trigger] s.contains(y) && c == apply_all_spec(env@, y.0, y.1);
                        let i = choose|i: int| 0 <= i < pv.len() && pv[i] == y;
                        assert(c == apply_all_spec(env@, pv[i].0, pv[i].1));
                    }
                }
                assert(collapse_spec(env@, pv) =~= u);
            }
            Some(r)
        },
    }
}

/// The type chains of `t` reached in the context of `chain` and `pending`:
/// a class type, value type or type variable with the pending liens
/// applied to the chain; an applied permission continues from each of its
/// pairs. `None` when a name is neither a class nor a value type, a
/// variable is not universal, or the permission's pairs fail.
pub open spec fn ty_chains_in(env: SEnv, chain: Seq<SLien>, pending: Seq<SLien>, t: STy, fuel: nat) -> Option<Set<STyChain>>
    decreases ty_size(t),
{
    match t {
        STy::NamedTy(n) => if is_class_name(env.program, n.name) {
            Some(set![STyChain::ClassTy(apply_all_spec(env, chain, pending), n)])
        } else if is_value_name(n.name) {
            Some(set![STyChain::ValueTy(apply_all_spec(env, chain, pending), n)])
        } else {
            None
        },
        STy::Var(Variable::UniversalVar(v)) => Some(set![STyChain::Var(apply_all_spec(env, chain, pending), v)]),
        STy::Var(_) => None,
        STy::ApplyPerm(q, inner) => match chain_pairs(env, chain, pending, SParameter::Perm(q), fuel) {
            None => None,
            Some(ps) => if forall|y: (Seq<SLien>, Seq<SLien>)| #[trigger] ps.contains(y) ==> ty_chains_in(env, y.0, y.1, *inner, fuel) is Some {
                Some(Set::new(|x: STyChain| exists|y: (Seq<SLien>, Seq<SLien>)| #[trigger] ps.contains(y)
                    && ty_chains_in(env, y.0, y.1, *inner, fuel).unwrap().contains(x)))
            } else {
                None
            },
        },
    }
}

pub open spec fn tset(v: Seq<TyChain>) -> Set<STyChain> {
    v.map_values(|c: TyChain| c@).to_set()
}

pub open spec fn opt_tset(r: Option<Vec<TyChain>>) -> Option<Set<STyChain>> {
    match r {
        None => None,
        Some(v) => Some(tset(v@)),
    }
}

proof fn lemma_tset_append(a: Seq<TyChain>, b: Seq<TyChain>)
    ensures
        tset(a + b) == tset(a) + tset(b),
{
    let f = |c: TyChain| c@;
    assert((a + b).map_values(f) =~= a.map_values(f) + b.map_values(f));
    let pa = a.map_values(f);
    let pb = b.map_values(f);
    assert forall|x: STyChain| (pa + pb).to_set().contains(x) <==> (pa.to_set() + pb.to_set()).contains(x) by {
        if (pa + pb).contains(x) {
            let i = choose|i: int| 0 <= i < (pa + pb).len() && (pa + pb)[i] == x;
            if i < pa.len() {
                assert(pa[i] == x);
                assert(pa.contains(x));
            } else {
                assert(pb[i - pa.len()] == x);
                assert(pb.contains(x));
            }
        }
        if pa.contains(x) {
            let i = choose|i: int| 0 <= i < pa.len() && pa[i] == x;
            assert((pa + pb)[i] == x);
        }
        if pb.contains(x) {
            let i = choose|i: int| 0 <= i < pb.len() && pb[i] == x;
            assert((pa + pb)[i + pa.len()] == x);
        }
    }
    assert((pa + pb).to_set() =~= pa.to_set() + pb.to_set());
}

/// The list holding the one type chain `c`.
fn single_ty_chain(c: TyChain) -> (r: Vec<TyChain>)
    ensures
        tset(r@) == set![c@],
{
    let r = vec![c];
    proof {
        let v = r@.map_values(|c: TyChain| c@);
        assert(v =~= seq![r@[0]@]);
        assert(v.to_set() =~= set![r@[0]@]) by {
            assert(v[0] == r@[0]@);
            assert(v.contains(r@[0]@));
        }
    }
    r
}

fn ty_chains_cx(env: &Env, chain: &LienChain, pending: &LienChain, t: &Ty, fuel: usize) -> (r: Option<Vec<TyChain>>)
    ensures
        opt_tset(r) == ty_chains_in(env@, chain@, pending@, t@, fuel as nat),
    decreases ty_size(t@),
{
    match t {
        Ty::NamedTy(n) => {
            assert(t@ == STy::NamedTy(n@));
            if env.is_class_ty(&n.name) {
                Some(single_ty_chain(TyChain::ClassTy(chain.apply_all(env, pending), n.copy())))
            } else if env.is_value_ty(&n.name) {
                Some(single_ty_chain(TyChain::ValueTy(chain.apply_all(env, pending), n.copy())))
            } else {
                None
            }
        },
        Ty::Var(v) => {
            assert(t@ == STy::Var(*v));
            match v {
                Variable::UniversalVar(u) => Some(single_ty_chain(TyChain::Var(chain.apply_all(env, pending), *u))),
                _ => None,
            }
        },
        Ty::ApplyPerm(q, inner) => {
            assert(t@ == STy::ApplyPerm(q@, Box::new(inner@)));
            let qp = Parameter::Perm(q.copy());
            assert(qp@ == SParameter::Perm(q@));
            let ps = match lien_chain_pairs(env, chain, pending, &qp, fuel) {
                None => return None,
                Some(ps) => ps,
            };
            let ghost e = env@;
            let ghost f = fuel as nat;
            let ghost s = pset(ps@);
            let ghost it = inner@;
            let mut acc: Vec<TyChain> = Vec::new();
            let mut i: usize = 0;
            while i < ps.len()
                invariant
                    e == env@,
                    f == fuel as nat,
                    s == pset(ps@),
                    it == inner@,
                    ty_size(it) < ty_size(t@),
                    t@ == STy::ApplyPerm(q@, Box::new(it)),
                    chain_pairs(e, chain@, pending@, SParameter::Perm(q@), f) == Some(s),
                    i <= ps@.len(),
                    forall|j: int| 0 <= j < i ==> ty_chains_in(e, (#[trigger] ps@[j]).0@, ps@[j].1@, it, f) is Some,
                    forall|x: STyChain| tset(acc@).contains(x) <==> exists|j: int| 0 <= j < i
                        && ty_chains_in(e, (#[trigger] ps@[j]).0@, ps@[j].1@, it, f).unwrap().contains(x),
                decreases ps.len() - i,
            {
                match ty_chains_cx(env, &ps[i].0, &ps[i].1, inner, fuel) {
                    None => {
                        proof {
                            let y = (ps@[i as int].0@, ps@[i as int].1@);
                            lemma_pset_contains(ps@, y);
                            assert(s.contains(y));
                        }
                        return None;
                    },
                    Some(mut sub) => {
                        let ghost old_acc = acc@;
                        let ghost subv = sub@;
                        acc.append(&mut sub);
                        proof {
                            lemma_tset_append(old_acc, subv);
                            assert(acc@ == old_acc + subv);
                            assert forall|x: STyChain| tset(acc@).contains(x) <==> exists|j: int| 0 <= j < i + 1
                                && ty_chains_in(e, (#[trigger] ps@[j]).0@, ps@[j].1@, it, f).unwrap().contains(x) by {
                                if tset(old_acc).contains(x) {
                                    let j = choose|j: int| 0 <= j < i && ty_chains_in(e, (#[trigger] ps@[j]).0@, ps@[j].1@, it, f).unwrap().contains(x);
                                }
                                if exists|j: int| 0 <= j < i + 1 && ty_chains_in(e, (#[trigger] ps@[j]).0@, ps@[j].1@, it, f).unwrap().contains(x) {
                                    let j = choose|j: int| 0 <= j < i + 1 && ty_chains_in(e, (#[trigger] ps@[j]).0@, ps@[j].1@, it, f).unwrap().contains(x);
                                    if j < i {
                                        assert(tset(old_acc).contains(x));
                                    }
                                }
                            }
                        }
                    },
                }
                i = i + 1;
            }
            proof {
                assert forall|y: (Seq<SLien>, Seq<SLien>)| #[trigger] s.contains(y) implies ty_chains_in(e, y.0, y.1, it, f) is Some by {
                    lemma_pset_contains(ps@, y);
                    let j = choose|j: int| 0 <= j < ps@.len() && y == (#[trigger] ps@[j].0@, ps@[j].1@);
                    assert(ty_chains_in(e, ps@[j].0@, ps@[j].1@, it, f) is Some);
                }
                let u = Set::new(|x: STyChain| exists|y: (Seq<SLien>, Seq<SLien>)| #[trigger] s.contains(y)
                    && ty_chains_in(e, y.0, y.1, it, f).unwrap().contains(x));
                assert forall|x: STyChain| tset(acc@).contains(x) <==> u.contains(x) by {
                    if tset(acc@).contains(x) {
                        let j = choose|j: int| 0 <= j < i && ty_chains_in(e, (#[trigger] ps@[j]).0@, ps@[j].1@, it, f).unwrap().contains(x);
                        let y = (ps@[j].0@, ps@[j].1@);
                        lemma_pset_contains(ps@, y);
                        assert(s.contains(y));
                    }
                    if u.contains(x) {
                        let y = choose|y: (Seq<SLien>, Seq<SLien>)| #[trigger] s.contains(y) && ty_chains_in(e, y.0, y.1, it, f).unwrap().contains(x);
                        lemma_pset_contains(ps@, y);
                        let j = choose|j: int| 0 <= j < ps@.len() && y == (#[trigger] ps@[j].0@, ps@[j].1@);
                        assert(ty_chains_in(e, ps@[j].0@, ps@[j].1@, it, f).unwrap().contains(x));
                    }
                }
                assert(tset(acc@) =~= u);
            }
            Some(acc)
        },
    }
}

/// The type chains of `a` in the context `cx`: reached from unique
/// ownership with `cx` pending (see [`ty_chains_in`]).
pub fn ty_chains(env: &Env, cx: &LienChain, a: &Ty, fuel: usize) -> (r: Option<Vec<TyChain>>)
    ensures
        opt_tset(r) == ty_chains_in(env@, Seq::empty(), cx@, a@, fuel as nat),
{
    ty_chains_cx(env, &LienChain::my(), cx, a, fuel)
}

// ---------------------------------------------------------------------------
// Laws
// ---------------------------------------------------------------------------

/// Owned permission is a left unit of application: `given p` has the pairs
/// of `p`.
pub proof fn law_given_left_unit(env: SEnv, chain: Seq<SLien>, pending: Seq<SLien>, p: SPerm, fuel: nat)
    ensures
        chain_pairs(env, chain, pending, SParameter::Perm(SPerm::Apply(Box::new(SPerm::Given), Box::new(p))), fuel)
            == chain_pairs(env, chain, pending, SParameter::Perm(p), fuel),
{
    let one = set![(chain, pending)];
    let a = SParameter::Perm(SPerm::Apply(Box::new(SPerm::Given), Box::new(p)));
    assert(chain_pairs(env, chain, pending, SParameter::Perm(SPerm::Given), fuel) == Some(one));
    assert(chain_pairs(env, chain, pending, a, fuel) == apply_pairs(env, one, SParameter::Perm(p), fuel));
    assert(one.contains((chain, pending)));
    match chain_pairs(env, chain, pending, SParameter::Perm(p), fuel) {
        None => {
            assert(apply_pairs(env, one, SParameter::Perm(p), fuel) is None);
        },
        Some(ps) => {
            let u = Set::new(|x: (Seq<SLien>, Seq<SLien>)| exists|y: (Seq<SLien>, Seq<SLien>)| #[trigger] one.contains(y)
                && chain_pairs(env, y.0, y.1, SParameter::Perm(p), fuel).unwrap().contains(x));
            assert(u =~= ps);
            assert(apply_pairs(env, one, SParameter::Perm(p), fuel) == Some(u));
        },
    }
}

/// Owned permission is a right unit of application: `p given` has the
/// pairs of `p`.
pub proof fn law_given_right_unit(env: SEnv, chain: Seq<SLien>, pending: Seq<SLien>, p: SPerm, fuel: nat)
    ensures
        chain_pairs(env, chain, pending, SParameter::Perm(SPerm::Apply(Box::new(p), Box::new(SPerm::Given))), fuel)
            == chain_pairs(env, chain, pending, SParameter::Perm(p), fuel),
{
    match chain_pairs(env, chain, pending, SParameter::Perm(p), fuel) {
        None => {},
        Some(ps) => {
            assert forall|y: (Seq<SLien>, Seq<SLien>)| #[trigger] ps.contains(y) implies
                chain_pairs(env, y.0, y.1, SParameter::Perm(SPerm::Given), fuel) == Some(set![y]) by {}
            let u = Set::new(|x: (Seq<SLien>, Seq<SLien>)| exists|y: (Seq<SLien>, Seq<SLien>)| #[trigger] ps.contains(y)
                && chain_pairs(env, y.0, y.1, SParameter::Perm(SPerm::Given), fuel).unwrap().contains(x));
            assert forall|x: (Seq<SLien>, Seq<SLien>)| u.contains(x) <==> ps.contains(x) by {
                if ps.contains(x) {
                    assert(chain_pairs(env, x.0, x.1, SParameter::Perm(SPerm::Given), fuel).unwrap().contains(x));
                }
            }
            assert(u =~= ps);
            assert(apply_pairs(env, ps, SParameter::Perm(SPerm::Given), fuel) == Some(u));
        },
    }
}

/// Shared ownership forgets its context: whatever is pending, the lien
/// chains of `our` are the chain `our` alone.
pub proof fn law_our_forgets_context(env: SEnv, cx: Seq<SLien>, fuel: nat)
    ensures
        lien_chains_of(env, cx, SParameter::Perm(SPerm::Shared), fuel) == Some(set![seq![SLien::Our]]),
{
    let ps = set![(seq![SLien::Our], Seq::<SLien>::empty())];
    assert(chain_pairs(env, Seq::empty(), cx, SParameter::Perm(SPerm::Shared), fuel) == Some(ps));
    assert(apply_all_spec(env, seq![SLien::Our], Seq::<SLien>::empty()) == seq![SLien::Our]);
    let u = Set::new(|c: Seq<SLien>| exists|y: (Seq<SLien>, Seq<SLien>)| #[trigger] ps.contains(y)
        && c == apply_all_spec(env, y.0, y.1));
    assert(ps.contains((seq![SLien::Our], Seq::<SLien>::empty())));
    assert(u =~= set![seq![SLien::Our]]);
}

/// An owned type has the type chains of the type it owns.
pub proof fn law_given_type_has_inner_chains(env: SEnv, chain: Seq<SLien>, pending: Seq<SLien>, t: STy, fuel: nat)
    ensures
        ty_chains_in(env, chain, pending, STy::ApplyPerm(SPerm::Given, Box::new(t)), fuel) == ty_chains_in(env, chain, pending, t, fuel),
{
    let one = set![(chain, pending)];
    assert(chain_pairs(env, chain, pending, SParameter::Perm(SPerm::Given), fuel) == Some(one));
    assert(one.contains((chain, pending)));
    match ty_chains_in(env, chain, pending, t, fuel) {
        None => {},
        Some(ts) => {
            let u = Set::new(|x: STyChain| exists|y: (Seq<SLien>, Seq<SLien>)| #[trigger] one.contains(y)
                && ty_chains_in(env, y.0, y.1, t, fuel).unwrap().contains(x));
            assert(u =~= ts);
        },
    }
}

} // verus!
