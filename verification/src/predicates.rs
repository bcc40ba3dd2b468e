//! Checking and proving predicates on types and permissions: `copy`,
//! `move`, `owned`, `mut`, `given`, `shared`, `share` and the variance
//! predicates.
use vstd::prelude::*;

use crate::env::{Env, SEnv};
use crate::errors::{STypeError, TypeError};
use crate::grammar::{
    class_index, lemma_parameters_view, lemma_place_set_contains, parameters_view, place_set,
    ClassPredicate, NamedTy, Parameter, ParameterPredicate, Perm, Place, Predicate, SNamedTy,
    SParameter, SPerm, SPlace, SPredicate, STy, STypeName, Ty, TypeName, Variable, VarianceKind,
};
use crate::places::place_ty_of;
use crate::types::{check_parameter, param_err, param_ok};

verus! {

broadcast use vstd::std_specs::vec::axiom_vec_decreases_to_view;

// ---------------------------------------------------------------------------
// Classes
// ---------------------------------------------------------------------------

/// Whether the type named `name` is a shared type (a shared class, or a
/// value type); `None` when no class has that name.
pub open spec fn shared_name(program: Seq<SClassDecl>, name: STypeName) -> Option<bool> {
    match name {
        STypeName::Id(c) => {
            let i = class_index(program, c);
            if i < 0 {
                None
            } else {
                Some(program[i].class_predicate == ClassPredicate::Shared)
            }
        },
        _ => Some(true),
    }
}

/// Whether the type named `name` can be shared (a share or shared class, or
/// a value type); `None` when no class has that name.
pub open spec fn share_name(program: Seq<SClassDecl>, name: STypeName) -> Option<bool> {
    match name {
        STypeName::Id(c) => {
            let i = class_index(program, c);
            if i < 0 {
                None
            } else {
                Some(program[i].class_predicate != ClassPredicate::Given)
            }
        },
        _ => Some(true),
    }
}

use crate::grammar::SClassDecl;

fn class_predicate_of(env: &Env, name: &TypeName) -> (r: Option<ClassPredicate>)
    ensures
        match name@ {
            STypeName::Id(c) => {
                let i = class_index(env@.program, c);
                if i < 0 {
                    r is None
                } else {
                    r == Some(env@.program[i].class_predicate)
                }
            },
            _ => r == Some(ClassPredicate::Shared),
        },
{
    match name {
        TypeName::Id(c) => match env.program().class_named(c) {
            Some(decl) => Some(decl.class_predicate),
            None => None,
        },
        _ => Some(ClassPredicate::Shared),
    }
}

// ---------------------------------------------------------------------------
// Sizes, for termination
// ---------------------------------------------------------------------------

pub open spec fn perm_size(p: SPerm) -> nat
    decreases p,
{
    match p {
        SPerm::Apply(l, r) => 1 + perm_size(*l) + perm_size(*r),
        SPerm::Or(ps) => 1 + perms_size(ps),
        _ => 1,
    }
}

pub open spec fn perms_size(ps: Seq<SPerm>) -> nat
    decreases ps,
{
    if ps.len() == 0 {
        0
    } else {
        perms_size(ps.drop_last()) + perm_size(ps.last())
    }
}

pub open spec fn ty_size(t: STy) -> nat
    decreases t,
{
    match t {
        STy::NamedTy(n) => 1 + params_size(n.parameters),
        STy::Var(_) => 1,
        STy::ApplyPerm(p, inner) => 1 + perm_size(p) + ty_size(*inner),
    }
}

pub open spec fn param_size(p: SParameter) -> nat
    decreases p,
{
    match p {
        SParameter::Ty(t) => ty_size(t),
        SParameter::Perm(q) => perm_size(q),
    }
}

pub open spec fn params_size(ps: Seq<SParameter>) -> nat
    decreases ps,
{
    if ps.len() == 0 {
        0
    } else {
        param_size(ps[0]) + params_size(ps.subrange(1, ps.len() as int))
    }
}

pub proof fn lemma_params_size(ps: Seq<SParameter>, i: int)
    requires
        0 <= i < ps.len(),
    ensures
        param_size(ps[i]) <= params_size(ps),
    decreases ps.len(),
{
    if i > 0 {
        let t = ps.subrange(1, ps.len() as int);
        lemma_params_size(t, i - 1);
        assert(t[i - 1] == ps[i]);
    }
}

pub proof fn lemma_param_size_pos(p: SParameter)
    ensures
        param_size(p) >= 1,
{
    match p {
        SParameter::Ty(t) => {
            match t {
                STy::NamedTy(_) => {},
                STy::Var(_) => {},
                STy::ApplyPerm(_, _) => {},
            }
        },
        SParameter::Perm(q) => {
            match q {
                SPerm::Apply(_, _) => {},
                SPerm::Or(_) => {},
                _ => {},
            }
        },
    }
}

/// The predicates that follow from others on the same term come later.
pub open spec fn pred_rank(k: ParameterPredicate) -> nat {
    match k {
        ParameterPredicate::Move => 1,
        ParameterPredicate::Shared => 1,
        _ => 0,
    }
}

pub open spec fn pred_param(p: SPredicate) -> SParameter {
    match p {
        SPredicate::Parameter(_, x) => x,
        SPredicate::Variance(_, x) => x,
    }
}

pub open spec fn pred_size(p: SPredicate) -> nat {
    param_size(pred_param(p))
}

pub open spec fn pred_order(p: SPredicate) -> nat {
    match p {
        SPredicate::Parameter(k, _) => pred_rank(k),
        SPredicate::Variance(_, _) => 0,
    }
}

// ---------------------------------------------------------------------------
// The rules
// ---------------------------------------------------------------------------

pub open spec fn pp(k: ParameterPredicate, p: SParameter) -> SPredicate {
    SPredicate::Parameter(k, p)
}

pub open spec fn perm_param(p: SPerm) -> SParameter {
    SParameter::Perm(p)
}

pub open spec fn ty_param(t: STy) -> SParameter {
    SParameter::Ty(t)
}

/// `k(lhs rhs)`: when `rhs` is copy the application is `rhs` itself;
/// otherwise `copy` and `mut` need either side, `given`, `move` and
/// `owned` need both.
pub open spec fn compose(env: SEnv, k: ParameterPredicate, lhs: SParameter, rhs: SParameter, fuel: nat) -> bool
    decreases fuel, param_size(lhs) + param_size(rhs) + 1, 0nat,
{
    proof {
        lemma_param_size_pos(lhs);
        lemma_param_size_pos(rhs);
    }
    if provable(env, pp(ParameterPredicate::Copy, rhs), fuel) {
        provable(env, pp(k, rhs), fuel)
    } else {
        match k {
            ParameterPredicate::Copy | ParameterPredicate::Mut => provable(env, pp(k, lhs), fuel)
                || provable(env, pp(k, rhs), fuel),
            ParameterPredicate::Given | ParameterPredicate::Move | ParameterPredicate::Owned => provable(
                env,
                pp(k, lhs),
                fuel,
            ) && provable(env, pp(k, rhs), fuel),
            _ => false,
        }
    }
}

/// Every place of `s` has a type satisfying `k` (looked up with one less
/// unit of fuel).
pub open spec fn places_meet(env: SEnv, k: ParameterPredicate, s: Set<SPlace>, fuel: nat) -> bool
    decreases fuel, 0nat, 0nat,
{
    fuel > 0 && forall|q: SPlace| #[trigger] s.contains(q) ==> (place_ty_of(env, q) matches Ok(t)
        && provable(env, pp(k, ty_param(t)), (fuel - 1) as nat))
}

/// Every place of `s` has a type satisfying both `k1` and `k2`.
pub open spec fn places_meet2(env: SEnv, k1: ParameterPredicate, k2: ParameterPredicate, s: Set<SPlace>, fuel: nat) -> bool
    decreases fuel, 0nat, 0nat,
{
    fuel > 0 && forall|q: SPlace| #[trigger] s.contains(q) ==> (place_ty_of(env, q) matches Ok(t)
        && provable(env, pp(k1, ty_param(t)), (fuel - 1) as nat)
        && provable(env, pp(k2, ty_param(t)), (fuel - 1) as nat))
}

/// Every place of `s` has a type that is not copy or is mut: mutably
/// borrowing it gives something mut.
pub open spec fn places_mut(env: SEnv, s: Set<SPlace>, fuel: nat) -> bool
    decreases fuel, 0nat, 0nat,
{
    fuel > 0 && forall|q: SPlace| #[trigger] s.contains(q) ==> (place_ty_of(env, q) matches Ok(t)
        && (!provable(env, pp(ParameterPredicate::Copy, ty_param(t)), (fuel - 1) as nat)
        || provable(env, pp(ParameterPredicate::Mut, ty_param(t)), (fuel - 1) as nat)))
}

/// Every place of `s` has a type satisfying the variance `kind`.
pub open spec fn places_variance(env: SEnv, kind: VarianceKind, s: Set<SPlace>, fuel: nat) -> bool
    decreases fuel, 0nat, 0nat,
{
    fuel > 0 && forall|q: SPlace| #[trigger] s.contains(q) ==> (place_ty_of(env, q) matches Ok(t)
        && provable(env, SPredicate::Variance(kind, ty_param(t)), (fuel - 1) as nat))
}

/// Every parameter satisfies `k`.
pub open spec fn all_params(env: SEnv, k: ParameterPredicate, ps: Seq<SParameter>, fuel: nat) -> bool
    decreases fuel, params_size(ps) + 2, 0nat,
{
    if ps.len() == 0 {
        true
    } else {
        proof {
            lemma_param_size_pos(ps[0]);
        }
        provable(env, pp(k, ps[0]), fuel) && all_params(env, k, ps.subrange(1, ps.len() as int), fuel)
    }
}

/// Some parameter satisfies `k`.
pub open spec fn any_param(env: SEnv, k: ParameterPredicate, ps: Seq<SParameter>, fuel: nat) -> bool
    decreases fuel, params_size(ps) + 2, 0nat,
{
    if ps.len() == 0 {
        false
    } else {
        proof {
            lemma_param_size_pos(ps[0]);
        }
        provable(env, pp(k, ps[0]), fuel) || any_param(env, k, ps.subrange(1, ps.len() as int), fuel)
    }
}

/// Every parameter satisfies the variance `kind`.
pub open spec fn all_params_variance(env: SEnv, kind: VarianceKind, ps: Seq<SParameter>, fuel: nat) -> bool
    decreases fuel, params_size(ps) + 2, 0nat,
{
    if ps.len() == 0 {
        true
    } else {
        proof {
            lemma_param_size_pos(ps[0]);
        }
        provable(env, SPredicate::Variance(kind, ps[0]), fuel) && all_params_variance(
            env,
            kind,
            ps.subrange(1, ps.len() as int),
            fuel,
        )
    }
}

/// The rules for a predicate other than an assumption.
pub open spec fn rule_holds(env: SEnv, pred: SPredicate, fuel: nat) -> bool
    decreases fuel, pred_size(pred) + 1, 2 * pred_order(pred) + 1,
{
    match pred {
        SPredicate::Parameter(k, p) => match k {
            ParameterPredicate::Copy => match p {
                SParameter::Ty(STy::NamedTy(n)) => shared_name(env.program, n.name) == Some(true)
                    && all_params(env, ParameterPredicate::Copy, n.parameters, fuel),
                SParameter::Ty(STy::ApplyPerm(q, t)) => provable(env, pp(k, perm_param(q)), fuel)
                    || provable(env, pp(k, ty_param(*t)), fuel),
                SParameter::Perm(SPerm::Shared) => true,
                SParameter::Perm(SPerm::Rf(_)) => true,
                SParameter::Perm(SPerm::Mv(s)) => places_meet(env, k, s, fuel),
                SParameter::Perm(SPerm::Mt(s)) => places_meet(env, k, s, fuel),
                SParameter::Perm(SPerm::Apply(l, r)) => compose(env, k, perm_param(*l), perm_param(*r), fuel),
                _ => false,
            },
            ParameterPredicate::Move => provable(env, pp(ParameterPredicate::Mut, p), fuel) || match p {
                SParameter::Ty(STy::NamedTy(n)) => (shared_name(env.program, n.name) == Some(true)
                    && any_param(env, k, n.parameters, fuel)) || shared_name(env.program, n.name) == Some(false),
                SParameter::Ty(STy::ApplyPerm(q, t)) => compose(env, k, perm_param(q), ty_param(*t), fuel),
                SParameter::Perm(SPerm::Given) => true,
                SParameter::Perm(SPerm::Mv(s)) => places_meet(env, k, s, fuel),
                SParameter::Perm(SPerm::Rf(s)) => places_meet2(env, ParameterPredicate::Copy, k, s, fuel),
                SParameter::Perm(SPerm::Mt(s)) => places_meet(env, k, s, fuel),
                SParameter::Perm(SPerm::Apply(l, r)) => compose(env, k, perm_param(*l), perm_param(*r), fuel),
                _ => false,
            },
            ParameterPredicate::Owned => match p {
                SParameter::Ty(STy::NamedTy(n)) => shared_name(env.program, n.name) is Some
                    && all_params(env, k, n.parameters, fuel),
                SParameter::Ty(STy::ApplyPerm(q, t)) => compose(env, k, perm_param(q), ty_param(*t), fuel),
                SParameter::Perm(SPerm::Given) => true,
                SParameter::Perm(SPerm::Shared) => true,
                SParameter::Perm(SPerm::Mv(s)) => places_meet(env, k, s, fuel),
                SParameter::Perm(SPerm::Rf(s)) => places_meet2(env, ParameterPredicate::Copy, k, s, fuel),
                SParameter::Perm(SPerm::Mt(s)) => places_meet2(env, ParameterPredicate::Copy, k, s, fuel),
                SParameter::Perm(SPerm::Apply(l, r)) => compose(env, k, perm_param(*l), perm_param(*r), fuel),
                _ => false,
            },
            ParameterPredicate::Mut => match p {
                SParameter::Ty(STy::ApplyPerm(q, t)) => compose(env, k, perm_param(q), ty_param(*t), fuel),
                SParameter::Perm(SPerm::Mv(s)) => places_meet(env, k, s, fuel),
                SParameter::Perm(SPerm::Mt(s)) => places_mut(env, s, fuel),
                SParameter::Perm(SPerm::Apply(l, r)) => compose(env, k, perm_param(*l), perm_param(*r), fuel),
                _ => false,
            },
            ParameterPredicate::Given => p == perm_param(SPerm::Given),
            ParameterPredicate::Shared => (provable(env, pp(ParameterPredicate::Copy, p), fuel) && provable(
                env,
                pp(ParameterPredicate::Owned, p),
                fuel,
            )) || p == perm_param(SPerm::Shared),
            ParameterPredicate::Share => match p {
                SParameter::Ty(STy::NamedTy(n)) => share_name(env.program, n.name) == Some(true)
                    && all_params(env, k, n.parameters, fuel),
                SParameter::Ty(STy::ApplyPerm(q, t)) => provable(env, pp(k, ty_param(*t)), fuel)
                    || provable(env, pp(ParameterPredicate::Mut, perm_param(q)), fuel)
                    || provable(env, pp(ParameterPredicate::Copy, perm_param(q)), fuel),
                _ => false,
            },
        },
        SPredicate::Variance(kind, p) => match p {
            SParameter::Ty(STy::NamedTy(n)) => all_params_variance(env, kind, n.parameters, fuel),
            SParameter::Ty(STy::ApplyPerm(q, t)) => provable(env, SPredicate::Variance(kind, perm_param(q)), fuel)
                && provable(env, SPredicate::Variance(kind, ty_param(*t)), fuel),
            SParameter::Perm(SPerm::Given) => true,
            SParameter::Perm(SPerm::Shared) => true,
            SParameter::Perm(SPerm::Rf(_)) => true,
            SParameter::Perm(SPerm::Mt(s)) => places_variance(env, kind, s, fuel),
            SParameter::Perm(SPerm::Mv(s)) => places_variance(env, kind, s, fuel),
            SParameter::Perm(SPerm::Apply(l, r)) => provable(env, SPredicate::Variance(kind, perm_param(*l)), fuel)
                && provable(env, SPredicate::Variance(kind, perm_param(*r)), fuel),
            _ => false,
        },
    }
}

/// `pred` is provable in `env`: it is assumed, or one of its rules holds.
/// Each lookup of the type of a place uses one unit of `fuel`.
pub open spec fn provable(env: SEnv, pred: SPredicate, fuel: nat) -> bool
    decreases fuel, pred_size(pred) + 1, 2 * pred_order(pred) + 2,
{
    env.assumptions.contains(pred) || rule_holds(env, pred, fuel)
}


// ---------------------------------------------------------------------------
// Structural equality
// ---------------------------------------------------------------------------

fn place_in(p: &Place, v: &Vec<Place>) -> (r: bool)
    ensures
        r == place_set(v@).contains(p@),
{
    let mut i: usize = 0;
    while i < v.len()
        invariant
            i <= v@.len(),
            forall|j: int| 0 <= j < i ==> #[trigger] v@[j]@ != p@,
        decreases v.len() - i,
    {
        if v[i].same(p) {
            proof {
                lemma_place_set_contains(v@, p@);
            }
            return true;
        }
        i = i + 1;
    }
    proof {
        lemma_place_set_contains(v@, p@);
    }
    false
}

fn places_within(a: &Vec<Place>, b: &Vec<Place>) -> (r: bool)
    ensures
        r == place_set(a@).subset_of(place_set(b@)),
{
    let mut i: usize = 0;
    while i < a.len()
        invariant
            i <= a@.len(),
            forall|j: int| 0 <= j < i ==> place_set(b@).contains(#[trigger] a@[j]@),
        decreases a.len() - i,
    {
        if !place_in(&a[i], b) {
            proof {
                lemma_place_set_contains(a@, a@[i as int]@);
            }
            return false;
        }
        i = i + 1;
    }
    proof {
        assert forall|x: SPlace| place_set(a@).contains(x) implies place_set(b@).contains(x) by {
            lemma_place_set_contains(a@, x);
            let j = choose|j: int| 0 <= j < a@.len() && #[trigger] a@[j]@ == x;
            assert(place_set(b@).contains(a@[j]@));
        }
    }
    true
}

fn same_places(a: &Vec<Place>, b: &Vec<Place>) -> (r: bool)
    ensures
        r == (place_set(a@) == place_set(b@)),
{
    let r = places_within(a, b) && places_within(b, a);
    proof {
        if r {
            assert(place_set(a@) =~= place_set(b@));
        }
    }
    r
}

fn same_perm(a: &Perm, b: &Perm) -> (r: bool)
    ensures
        r == (a@ == b@),
    decreases a,
{
    match (a, b) {
        (Perm::Given, Perm::Given) => true,
        (Perm::Shared, Perm::Shared) => true,
        (Perm::Mv(x), Perm::Mv(y)) => same_places(x, y),
        (Perm::Rf(x), Perm::Rf(y)) => same_places(x, y),
        (Perm::Mt(x), Perm::Mt(y)) => same_places(x, y),
        (Perm::Var(x), Perm::Var(y)) => *x == *y,
        (Perm::Apply(l1, r1), Perm::Apply(l2, r2)) => {
            let r = same_perm(l1, l2) && same_perm(r1, r2);
            proof {
                if a@ == b@ {
                    assert(l1@ == l2@);
                    assert(r1@ == r2@);
                }
            }
            r
        },
        (Perm::Or(xs), Perm::Or(ys)) => {
            let ghost xv = crate::grammar::perms_view(xs@);
            let ghost yv = crate::grammar::perms_view(ys@);
            proof {
                crate::grammar::lemma_perms_view(xs@);
                crate::grammar::lemma_perms_view(ys@);
            }
            if xs.len() != ys.len() {
                proof {
                    if a@ == b@ {
                        assert(xv.len() == yv.len());
                    }
                }
                return false;
            }
            let mut i: usize = 0;
            while i < xs.len()
                invariant
                    *a == Perm::Or(*xs),
                    *b == Perm::Or(*ys),
                    xs@.len() == ys@.len(),
                    xv == crate::grammar::perms_view(xs@),
                    yv == crate::grammar::perms_view(ys@),
                    xv.len() == xs@.len(),
                    yv.len() == ys@.len(),
                    forall|j: int| 0 <= j < xs@.len() ==> #[trigger] xv[j] == xs@[j]@,
                    forall|j: int| 0 <= j < ys@.len() ==> #[trigger] yv[j] == ys@[j]@,
                    i <= xs@.len(),
                    forall|j: int| 0 <= j < i ==> xv[j] == yv[j],
                decreases xs.len() - i,
            {
                proof {
                    assert(decreases_to!(*a => (*a)->Or_0));
                }
                if !same_perm(&xs[i], &ys[i]) {
                    proof {
                        if a@ == b@ {
                            assert(a@ == SPerm::Or(xv));
                            assert(b@ == SPerm::Or(yv));
                            assert(xv[i as int] == yv[i as int]);
                        }
                    }
                    return false;
                }
                i = i + 1;
            }
            assert(xv =~= yv);
            true
        },
        _ => false,
    }
}

fn same_ty(a: &Ty, b: &Ty) -> (r: bool)
    ensures
        r == (a@ == b@),
    decreases a,
{
    match (a, b) {
        (Ty::NamedTy(x), Ty::NamedTy(y)) => {
            proof {
                assert(decreases_to!(*a => (*a)->NamedTy_0));
            }
            let r = x.name.same(&y.name) && same_parameters(&x.parameters, &y.parameters);
            proof {
                if a@ == b@ {
                    assert(x@ == y@);
                }
                if r {
                    assert(x@ == y@);
                }
            }
            r
        },
        (Ty::Var(x), Ty::Var(y)) => *x == *y,
        (Ty::ApplyPerm(p1, t1), Ty::ApplyPerm(p2, t2)) => {
            let r = same_perm(p1, p2) && same_ty(t1, t2);
            proof {
                if a@ == b@ {
                    assert(t1@ == t2@);
                }
            }
            r
        },
        _ => false,
    }
}

fn same_parameter(a: &Parameter, b: &Parameter) -> (r: bool)
    ensures
        r == (a@ == b@),
    decreases a,
{
    match (a, b) {
        (Parameter::Ty(x), Parameter::Ty(y)) => same_ty(x, y),
        (Parameter::Perm(x), Parameter::Perm(y)) => same_perm(x, y),
        _ => false,
    }
}

fn same_parameters(a: &Vec<Parameter>, b: &Vec<Parameter>) -> (r: bool)
    ensures
        r == (parameters_view(a@) == parameters_view(b@)),
    decreases a,
{
    let ghost av = parameters_view(a@);
    let ghost bv = parameters_view(b@);
    proof {
        lemma_parameters_view(a@);
        lemma_parameters_view(b@);
    }
    if a.len() != b.len() {
        return false;
    }
    let mut i: usize = 0;
    while i < a.len()
        invariant
            a@.len() == b@.len(),
            av == parameters_view(a@),
            bv == parameters_view(b@),
            av.len() == a@.len(),
            bv.len() == b@.len(),
            forall|j: int| 0 <= j < a@.len() ==> #[trigger] av[j] == a@[j]@,
            forall|j: int| 0 <= j < b@.len() ==> #[trigger] bv[j] == b@[j]@,
            i <= a@.len(),
            forall|j: int| 0 <= j < i ==> av[j] == bv[j],
        decreases a.len() - i,
    {
        proof {
            assert(decreases_to!(a => a@));
        }
        if !same_parameter(&a[i], &b[i]) {
            proof {
                if av == bv {
                    assert(av[i as int] == bv[i as int]);
                }
            }
            return false;
        }
        i = i + 1;
    }
    assert(av =~= bv);
    true
}

/// True if both predicates are the same.
pub fn same_predicate(a: &Predicate, b: &Predicate) -> (r: bool)
    ensures
        r == (a@ == b@),
{
    match (a, b) {
        (Predicate::Parameter(k1, p1), Predicate::Parameter(k2, p2)) => *k1 == *k2 && same_parameter(p1, p2),
        (Predicate::Variance(k1, p1), Predicate::Variance(k2, p2)) => *k1 == *k2 && same_parameter(p1, p2),
        _ => false,
    }
}


// ---------------------------------------------------------------------------
// The prover
// ---------------------------------------------------------------------------

/// True if `env` assumes `pred`.
fn assumed(env: &Env, pred: &Predicate) -> (r: bool)
    ensures
        r == env@.assumptions.contains(pred@),
{
    let assumptions = env.assumptions();
    let ghost av = assumptions@.map_values(|q: Predicate| q@);
    let mut i: usize = 0;
    while i < assumptions.len()
        invariant
            av == assumptions@.map_values(|q: Predicate| q@),
            crate::env::predicates_set(assumptions@) == env@.assumptions,
            i <= av.len(),
            forall|j: int| 0 <= j < i ==> av[j] != pred@,
        decreases assumptions.len() - i,
    {
        assert(av[i as int] == assumptions@[i as int]@);
        if same_predicate(&assumptions[i], pred) {
            assert(av.contains(pred@));
            return true;
        }
        i = i + 1;
    }
    assert(!av.contains(pred@));
    false
}

fn mk(k: ParameterPredicate, p: Parameter) -> (r: Predicate)
    ensures
        r@ == pp(k, p@),
{
    Predicate::Parameter(k, p)
}

proof fn lemma_all_params(env: SEnv, k: ParameterPredicate, ps: Seq<SParameter>, fuel: nat)
    ensures
        all_params(env, k, ps, fuel) <==> forall|j: int| 0 <= j < ps.len() ==> provable(env, pp(k, #[trigger] ps[j]), fuel),
    decreases ps.len(),
{
    if ps.len() > 0 {
        let t = ps.subrange(1, ps.len() as int);
        lemma_all_params(env, k, t, fuel);
        if forall|j: int| 0 <= j < ps.len() ==> provable(env, pp(k, #[trigger] ps[j]), fuel) {
            assert forall|j: int| 0 <= j < t.len() implies provable(env, pp(k, #[trigger] t[j]), fuel) by {
                assert(t[j] == ps[j + 1]);
            }
        }
        if all_params(env, k, ps, fuel) {
            assert forall|j: int| 0 <= j < ps.len() implies provable(env, pp(k, #[trigger] ps[j]), fuel) by {
                if j > 0 {
                    assert(ps[j] == t[j - 1]);
                }
            }
        }
    }
}

proof fn lemma_any_param(env: SEnv, k: ParameterPredicate, ps: Seq<SParameter>, fuel: nat)
    ensures
        any_param(env, k, ps, fuel) <==> exists|j: int| 0 <= j < ps.len() && provable(env, pp(k, #[trigger] ps[j]), fuel),
    decreases ps.len(),
{
    if ps.len() > 0 {
        let t = ps.subrange(1, ps.len() as int);
        lemma_any_param(env, k, t, fuel);
        if exists|j: int| 0 <= j < ps.len() && provable(env, pp(k, #[trigger] ps[j]), fuel) {
            let j = choose|j: int| 0 <= j < ps.len() && provable(env, pp(k, #[trigger] ps[j]), fuel);
            if j > 0 {
                assert(t[j - 1] == ps[j]);
            }
        }
        if any_param(env, k, t, fuel) {
            let j = choose|j: int| 0 <= j < t.len() && provable(env, pp(k, #[trigger] t[j]), fuel);
            assert(ps[j + 1] == t[j]);
        }
    }
}

proof fn lemma_all_params_variance(env: SEnv, kind: VarianceKind, ps: Seq<SParameter>, fuel: nat)
    ensures
        all_params_variance(env, kind, ps, fuel) <==> forall|j: int| 0 <= j < ps.len() ==> provable(env, SPredicate::Variance(kind, #[trigger] ps[j]), fuel),
    decreases ps.len(),
{
    if ps.len() > 0 {
        let t = ps.subrange(1, ps.len() as int);
        lemma_all_params_variance(env, kind, t, fuel);
        if forall|j: int| 0 <= j < ps.len() ==> provable(env, SPredicate::Variance(kind, #[trigger] ps[j]), fuel) {
            assert forall|j: int| 0 <= j < t.len() implies provable(env, SPredicate::Variance(kind, #[trigger] t[j]), fuel) by {
                assert(t[j] == ps[j + 1]);
            }
        }
        if all_params_variance(env, kind, ps, fuel) {
            assert forall|j: int| 0 <= j < ps.len() implies provable(env, SPredicate::Variance(kind, #[trigger] ps[j]), fuel) by {
                if j > 0 {
                    assert(ps[j] == t[j - 1]);
                }
            }
        }
    }
}

/// Every parameter satisfies `k` (or, with `any`, some parameter does).
fn params_exec(env: &Env, k: ParameterPredicate, ps: &Vec<Parameter>, any: bool, fuel: usize) -> (r: bool)
    ensures
        any ==> r == any_param(env@, k, parameters_view(ps@), fuel as nat),
        !any ==> r == all_params(env@, k, parameters_view(ps@), fuel as nat),
    decreases fuel, params_size(parameters_view(ps@)) + 2, 0nat,
{
    let ghost pv = parameters_view(ps@);
    proof {
        lemma_parameters_view(ps@);
        lemma_all_params(env@, k, pv, fuel as nat);
        lemma_any_param(env@, k, pv, fuel as nat);
    }
    let mut i: usize = 0;
    while i < ps.len()
        invariant
            pv == parameters_view(ps@),
            pv.len() == ps@.len(),
            forall|j: int| 0 <= j < ps@.len() ==> #[trigger] pv[j] == ps@[j]@,
            i <= ps@.len(),
            any ==> forall|j: int| 0 <= j < i ==> !provable(env@, pp(k, #[trigger] pv[j]), fuel as nat),
            !any ==> forall|j: int| 0 <= j < i ==> provable(env@, pp(k, #[trigger] pv[j]), fuel as nat),
        decreases ps.len() - i,
    {
        proof {
            lemma_params_size(pv, i as int);
        }
        let here = prove_predicate(env, &mk(k, ps[i].copy()), fuel);
        assert(here == provable(env@, pp(k, pv[i as int]), fuel as nat));
        if any && here {
            proof {
                lemma_any_param(env@, k, pv, fuel as nat);
            }
            return true;
        }
        if !any && !here {
            proof {
                lemma_all_params(env@, k, pv, fuel as nat);
            }
            return false;
        }
        i = i + 1;
    }
    !any
}

/// Every parameter satisfies the variance `kind`.
fn params_variance_exec(env: &Env, kind: VarianceKind, ps: &Vec<Parameter>, fuel: usize) -> (r: bool)
    ensures
        r == all_params_variance(env@, kind, parameters_view(ps@), fuel as nat),
    decreases fuel, params_size(parameters_view(ps@)) + 2, 0nat,
{
    let ghost pv = parameters_view(ps@);
    proof {
        lemma_parameters_view(ps@);
        lemma_all_params_variance(env@, kind, pv, fuel as nat);
    }
    let mut i: usize = 0;
    while i < ps.len()
        invariant
            pv == parameters_view(ps@),
            pv.len() == ps@.len(),
            forall|j: int| 0 <= j < ps@.len() ==> #[trigger] pv[j] == ps@[j]@,
            i <= ps@.len(),
            forall|j: int| 0 <= j < i ==> provable(env@, SPredicate::Variance(kind, #[trigger] pv[j]), fuel as nat),
        decreases ps.len() - i,
    {
        proof {
            lemma_params_size(pv, i as int);
        }
        let here = prove_predicate(env, &Predicate::Variance(kind, ps[i].copy()), fuel);
        assert(here == provable(env@, SPredicate::Variance(kind, pv[i as int]), fuel as nat));
        if !here {
            proof {
                lemma_all_params_variance(env@, kind, pv, fuel as nat);
            }
            return false;
        }
        i = i + 1;
    }
    true
}

/// What every place of a set must satisfy, its type looked up with one
/// less unit of fuel.
pub enum PlaceDemand {
    /// `k` holds of the type.
    Meets(ParameterPredicate),
    /// Both predicates hold of the type.
    Meets2(ParameterPredicate, ParameterPredicate),
    /// The type is not copy, or is mut.
    MutBorrow,
    /// The variance holds of the type.
    Variance(VarianceKind),
}

pub open spec fn demand_holds(env: SEnv, d: PlaceDemand, s: Set<SPlace>, fuel: nat) -> bool {
    match d {
        PlaceDemand::Meets(k) => places_meet(env, k, s, fuel),
        PlaceDemand::Meets2(k1, k2) => places_meet2(env, k1, k2, s, fuel),
        PlaceDemand::MutBorrow => places_mut(env, s, fuel),
        PlaceDemand::Variance(kind) => places_variance(env, kind, s, fuel),
    }
}

pub open spec fn demand_on(env: SEnv, d: PlaceDemand, t: STy, fuel: nat) -> bool {
    match d {
        PlaceDemand::Meets(k) => provable(env, pp(k, ty_param(t)), fuel),
        PlaceDemand::Meets2(k1, k2) => provable(env, pp(k1, ty_param(t)), fuel) && provable(env, pp(k2, ty_param(t)), fuel),
        PlaceDemand::MutBorrow => !provable(env, pp(ParameterPredicate::Copy, ty_param(t)), fuel)
            || provable(env, pp(ParameterPredicate::Mut, ty_param(t)), fuel),
        PlaceDemand::Variance(kind) => provable(env, SPredicate::Variance(kind, ty_param(t)), fuel),
    }
}

fn places_exec(env: &Env, d: PlaceDemand, places: &Vec<Place>, fuel: usize) -> (r: bool)
    ensures
        r == demand_holds(env@, d, place_set(places@), fuel as nat),
    decreases fuel, 0nat, 0nat,
{
    if fuel == 0 {
        return false;
    }
    let ghost s = place_set(places@);
    let mut i: usize = 0;
    while i < places.len()
        invariant
            fuel > 0,
            s == place_set(places@),
            i <= places@.len(),
            forall|j: int| 0 <= j < i ==> (place_ty_of(env@, #[trigger] places@[j]@) matches Ok(t)
                && demand_on(env@, d, t, (fuel - 1) as nat)),
        decreases places.len() - i,
    {
        let ok = match env.place_ty(&places[i]) {
            Ok(t) => {
                let f = fuel - 1;
                match d {
                    PlaceDemand::Meets(k) => prove_predicate(env, &mk(k, Parameter::Ty(t)), f),
                    PlaceDemand::Meets2(k1, k2) => prove_predicate(env, &mk(k1, Parameter::Ty(t.copy())), f)
                        && prove_predicate(env, &mk(k2, Parameter::Ty(t)), f),
                    PlaceDemand::MutBorrow => !prove_predicate(env, &mk(ParameterPredicate::Copy, Parameter::Ty(t.copy())), f)
                        || prove_predicate(env, &mk(ParameterPredicate::Mut, Parameter::Ty(t)), f),
                    PlaceDemand::Variance(kind) => prove_predicate(env, &Predicate::Variance(kind, Parameter::Ty(t)), f),
                }
            },
            Err(_) => false,
        };
        if !ok {
            proof {
                lemma_place_set_contains(places@, places@[i as int]@);
                assert(s.contains(places@[i as int]@));
            }
            return false;
        }
        i = i + 1;
    }
    proof {
        assert forall|q: SPlace| s.contains(q) implies (place_ty_of(env@, q) matches Ok(t) && demand_on(env@, d, t, (fuel - 1) as nat)) by {
            lemma_place_set_contains(places@, q);
            let j = choose|j: int| 0 <= j < places@.len() && #[trigger] places@[j]@ == q;
            assert(place_ty_of(env@, places@[j]@) matches Ok(t) && demand_on(env@, d, t, (fuel - 1) as nat));
        }
    }
    true
}

fn compose_exec(env: &Env, k: ParameterPredicate, lhs: &Parameter, rhs: &Parameter, fuel: usize) -> (r: bool)
    ensures
        r == compose(env@, k, lhs@, rhs@, fuel as nat),
    decreases fuel, param_size(lhs@) + param_size(rhs@) + 1, 1nat,
{
    proof {
        lemma_param_size_pos(lhs@);
        lemma_param_size_pos(rhs@);
    }
    if prove_predicate(env, &mk(ParameterPredicate::Copy, rhs.copy()), fuel) {
        prove_predicate(env, &mk(k, rhs.copy()), fuel)
    } else {
        match k {
            ParameterPredicate::Copy | ParameterPredicate::Mut => prove_predicate(env, &mk(k, lhs.copy()), fuel)
                || prove_predicate(env, &mk(k, rhs.copy()), fuel),
            ParameterPredicate::Given | ParameterPredicate::Move | ParameterPredicate::Owned => prove_predicate(
                env,
                &mk(k, lhs.copy()),
                fuel,
            ) && prove_predicate(env, &mk(k, rhs.copy()), fuel),
            _ => false,
        }
    }
}

fn perm_p(p: &Perm) -> (r: Parameter)
    ensures
        r@ == perm_param(p@),
{
    Parameter::Perm(p.copy())
}

fn ty_p(t: &Ty) -> (r: Parameter)
    ensures
        r@ == ty_param(t@),
{
    Parameter::Ty(t.copy())
}

fn rule_exec(env: &Env, pred: &Predicate, fuel: usize) -> (r: bool)
    ensures
        r == rule_holds(env@, pred@, fuel as nat),
    decreases fuel, pred_size(pred@) + 1, 2 * pred_order(pred@) + 1,
{
    match pred {
        Predicate::Parameter(k, p) => {
            let k = *k;
            match k {
                ParameterPredicate::Copy => match p {
                    Parameter::Ty(Ty::NamedTy(n)) => {
                        class_predicate_of(env, &n.name) == Some(ClassPredicate::Shared)
                            && params_exec(env, k, &n.parameters, false, fuel)
                    },
                    Parameter::Ty(Ty::ApplyPerm(q, t)) => prove_predicate(env, &mk(k, perm_p(q)), fuel)
                        || prove_predicate(env, &mk(k, ty_p(t)), fuel),
                    Parameter::Perm(Perm::Shared) => true,
                    Parameter::Perm(Perm::Rf(_)) => true,
                    Parameter::Perm(Perm::Mv(s)) => places_exec(env, PlaceDemand::Meets(k), s, fuel),
                    Parameter::Perm(Perm::Mt(s)) => places_exec(env, PlaceDemand::Meets(k), s, fuel),
                    Parameter::Perm(Perm::Apply(l, r)) => compose_exec(env, k, &perm_p(l), &perm_p(r), fuel),
                    _ => false,
                },
                ParameterPredicate::Move => {
                    if prove_predicate(env, &mk(ParameterPredicate::Mut, p.copy()), fuel) {
                        return true;
                    }
                    match p {
                        Parameter::Ty(Ty::NamedTy(n)) => {
                            let cp = class_predicate_of(env, &n.name);
                            (cp == Some(ClassPredicate::Shared) && params_exec(env, k, &n.parameters, true, fuel))
                                || (cp.is_some() && cp != Some(ClassPredicate::Shared))
                        },
                        Parameter::Ty(Ty::ApplyPerm(q, t)) => compose_exec(env, k, &perm_p(q), &ty_p(t), fuel),
                        Parameter::Perm(Perm::Given) => true,
                        Parameter::Perm(Perm::Mv(s)) => places_exec(env, PlaceDemand::Meets(k), s, fuel),
                        Parameter::Perm(Perm::Rf(s)) => places_exec(env, PlaceDemand::Meets2(ParameterPredicate::Copy, k), s, fuel),
                        Parameter::Perm(Perm::Mt(s)) => places_exec(env, PlaceDemand::Meets(k), s, fuel),
                        Parameter::Perm(Perm::Apply(l, r)) => compose_exec(env, k, &perm_p(l), &perm_p(r), fuel),
                        _ => false,
                    }
                },
                ParameterPredicate::Owned => match p {
                    Parameter::Ty(Ty::NamedTy(n)) => {
                        class_predicate_of(env, &n.name).is_some() && params_exec(env, k, &n.parameters, false, fuel)
                    },
                    Parameter::Ty(Ty::ApplyPerm(q, t)) => compose_exec(env, k, &perm_p(q), &ty_p(t), fuel),
                    Parameter::Perm(Perm::Given) => true,
                    Parameter::Perm(Perm::Shared) => true,
                    Parameter::Perm(Perm::Mv(s)) => places_exec(env, PlaceDemand::Meets(k), s, fuel),
                    Parameter::Perm(Perm::Rf(s)) => places_exec(env, PlaceDemand::Meets2(ParameterPredicate::Copy, k), s, fuel),
                    Parameter::Perm(Perm::Mt(s)) => places_exec(env, PlaceDemand::Meets2(ParameterPredicate::Copy, k), s, fuel),
                    Parameter::Perm(Perm::Apply(l, r)) => compose_exec(env, k, &perm_p(l), &perm_p(r), fuel),
                    _ => false,
                },
                ParameterPredicate::Mut => match p {
                    Parameter::Ty(Ty::ApplyPerm(q, t)) => compose_exec(env, k, &perm_p(q), &ty_p(t), fuel),
                    Parameter::Perm(Perm::Mv(s)) => places_exec(env, PlaceDemand::Meets(k), s, fuel),
                    Parameter::Perm(Perm::Mt(s)) => places_exec(env, PlaceDemand::MutBorrow, s, fuel),
                    Parameter::Perm(Perm::Apply(l, r)) => compose_exec(env, k, &perm_p(l), &perm_p(r), fuel),
                    _ => false,
                },
                ParameterPredicate::Given => match p {
                    Parameter::Perm(Perm::Given) => true,
                    _ => false,
                },
                ParameterPredicate::Shared => {
                    let both = prove_predicate(env, &mk(ParameterPredicate::Copy, p.copy()), fuel)
                        && prove_predicate(env, &mk(ParameterPredicate::Owned, p.copy()), fuel);
                    both || match p {
                        Parameter::Perm(Perm::Shared) => true,
                        _ => false,
                    }
                },
                ParameterPredicate::Share => match p {
                    Parameter::Ty(Ty::NamedTy(n)) => {
                        let cp = class_predicate_of(env, &n.name);
                        (cp == Some(ClassPredicate::Share) || cp == Some(ClassPredicate::Shared))
                            && params_exec(env, k, &n.parameters, false, fuel)
                    },
                    Parameter::Ty(Ty::ApplyPerm(q, t)) => prove_predicate(env, &mk(k, ty_p(t)), fuel)
                        || prove_predicate(env, &mk(ParameterPredicate::Mut, perm_p(q)), fuel)
                        || prove_predicate(env, &mk(ParameterPredicate::Copy, perm_p(q)), fuel),
                    _ => false,
                },
            }
        },
        Predicate::Variance(kind, p) => {
            let kind = *kind;
            match p {
                Parameter::Ty(Ty::NamedTy(n)) => params_variance_exec(env, kind, &n.parameters, fuel),
                Parameter::Ty(Ty::ApplyPerm(q, t)) => prove_predicate(env, &Predicate::Variance(kind, perm_p(q)), fuel)
                    && prove_predicate(env, &Predicate::Variance(kind, ty_p(t)), fuel),
                Parameter::Perm(Perm::Given) => true,
                Parameter::Perm(Perm::Shared) => true,
                Parameter::Perm(Perm::Rf(_)) => true,
                Parameter::Perm(Perm::Mt(s)) => places_exec(env, PlaceDemand::Variance(kind), s, fuel),
                Parameter::Perm(Perm::Mv(s)) => places_exec(env, PlaceDemand::Variance(kind), s, fuel),
                Parameter::Perm(Perm::Apply(l, r)) => prove_predicate(env, &Predicate::Variance(kind, perm_p(l)), fuel)
                    && prove_predicate(env, &Predicate::Variance(kind, perm_p(r)), fuel),
                _ => false,
            }
        },
    }
}

/// True if `pred` is provable in `env`, looking up the type of a place at
/// most `fuel` times along any line of reasoning.
pub fn prove_predicate(env: &Env, pred: &Predicate, fuel: usize) -> (r: bool)
    ensures
        r == provable(env@, pred@, fuel as nat),
    decreases fuel, pred_size(pred@) + 1, 2 * pred_order(pred@) + 2,
{
    assumed(env, pred) || rule_exec(env, pred, fuel)
}


// ---------------------------------------------------------------------------
// Entry points
// ---------------------------------------------------------------------------

/// True if `a` is provably copy.
pub fn prove_is_copy(env: &Env, a: &Parameter, fuel: usize) -> (r: bool)
    ensures
        r == provable(env@, pp(ParameterPredicate::Copy, a@), fuel as nat),
{
    prove_predicate(env, &mk(ParameterPredicate::Copy, a.copy()), fuel)
}

/// True if `a` can provably be shared.
pub fn prove_is_shareable(env: &Env, a: &Parameter, fuel: usize) -> (r: bool)
    ensures
        r == provable(env@, pp(ParameterPredicate::Share, a@), fuel as nat),
{
    prove_predicate(env, &mk(ParameterPredicate::Share, a.copy()), fuel)
}

/// True if `a` is not provably copy.
pub fn prove_isnt_known_to_be_copy(env: &Env, a: &Parameter, fuel: usize) -> (r: bool)
    ensures
        r == !provable(env@, pp(ParameterPredicate::Copy, a@), fuel as nat),
{
    !prove_is_copy(env, a, fuel)
}

/// True if `a` is provably move.
pub fn prove_is_move(env: &Env, a: &Parameter, fuel: usize) -> (r: bool)
    ensures
        r == provable(env@, pp(ParameterPredicate::Move, a@), fuel as nat),
{
    prove_predicate(env, &mk(ParameterPredicate::Move, a.copy()), fuel)
}

/// True if `a` is provably mut.
pub fn prove_is_mut(env: &Env, a: &Parameter, fuel: usize) -> (r: bool)
    ensures
        r == provable(env@, pp(ParameterPredicate::Mut, a@), fuel as nat),
{
    prove_predicate(env, &mk(ParameterPredicate::Mut, a.copy()), fuel)
}

/// True if `a` is provably owned.
pub fn prove_is_owned(env: &Env, a: &Parameter, fuel: usize) -> (r: bool)
    ensures
        r == provable(env@, pp(ParameterPredicate::Owned, a@), fuel as nat),
{
    prove_predicate(env, &mk(ParameterPredicate::Owned, a.copy()), fuel)
}

/// True if `a` is provably both move and owned.
pub fn prove_is_given(env: &Env, a: &Parameter, fuel: usize) -> (r: bool)
    ensures
        r == (provable(env@, pp(ParameterPredicate::Move, a@), fuel as nat)
            && provable(env@, pp(ParameterPredicate::Owned, a@), fuel as nat)),
{
    prove_is_move(env, a, fuel) && prove_is_owned(env, a, fuel)
}

/// True if `a` is provably both copy and owned.
pub fn prove_is_copy_owned(env: &Env, a: &Parameter, fuel: usize) -> (r: bool)
    ensures
        r == (provable(env@, pp(ParameterPredicate::Copy, a@), fuel as nat)
            && provable(env@, pp(ParameterPredicate::Owned, a@), fuel as nat)),
{
    prove_is_copy(env, a, fuel) && prove_is_owned(env, a, fuel)
}

/// True if there is nothing, or if the parameter of the pair is provably move.
pub fn prove_is_move_if_some(env: &Env, a: &Option<(Place, Parameter)>, fuel: usize) -> (r: bool)
    ensures
        match a {
            Some((_, p)) => r == provable(env@, pp(ParameterPredicate::Move, p@), fuel as nat),
            None => r,
        },
{
    match a {
        Some((_, p)) => prove_is_move(env, p, fuel),
        None => true,
    }
}

/// True if every predicate is provable.
pub fn prove_predicates(env: &Env, predicates: &Vec<Predicate>, fuel: usize) -> (r: bool)
    ensures
        r == forall|i: int| 0 <= i < predicates@.len() ==> provable(env@, #[trigger] predicates@[i]@, fuel as nat),
{
    let mut i: usize = 0;
    while i < predicates.len()
        invariant
            i <= predicates@.len(),
            forall|j: int| 0 <= j < i ==> provable(env@, #[trigger] predicates@[j]@, fuel as nat),
        decreases predicates.len() - i,
    {
        if !prove_predicate(env, &predicates[i], fuel) {
            return false;
        }
        i = i + 1;
    }
    true
}

// ---------------------------------------------------------------------------
// Well-formed predicates
// ---------------------------------------------------------------------------

/// A predicate may only constrain a generic variable, which must be well
/// formed where it is used.
pub open spec fn predicate_parameter_ok(env: SEnv, p: SParameter) -> bool {
    param_ok(env, p) && match p {
        SParameter::Ty(STy::Var(Variable::UniversalVar(_))) => true,
        SParameter::Perm(SPerm::Var(Variable::UniversalVar(_))) => true,
        _ => false,
    }
}

/// The error for a predicate on `p`: that of `p` itself, or that it is not
/// a generic variable.
pub open spec fn predicate_parameter_err(env: SEnv, p: SParameter, e: STypeError) -> bool {
    if !param_ok(env, p) {
        param_err(env, p, e)
    } else {
        e == STypeError::PredicateOnNonVariable
    }
}

/// Checks that the parameter of a predicate is a well-formed generic variable.
pub fn check_predicate_parameter(env: &Env, parameter: &Parameter) -> (r: Result<(), TypeError>)
    ensures
        r is Ok <==> predicate_parameter_ok(env@, parameter@),
        r matches Err(e) ==> predicate_parameter_err(env@, parameter@, e@),
{
    match check_parameter(env, parameter) {
        Err(e) => Err(e),
        Ok(()) => match parameter {
            Parameter::Ty(Ty::Var(Variable::UniversalVar(_))) => Ok(()),
            Parameter::Perm(Perm::Var(Variable::UniversalVar(_))) => Ok(()),
            _ => Err(TypeError::PredicateOnNonVariable),
        },
    }
}

/// Checks that a predicate is well formed: it applies to a generic variable.
pub fn check_predicate(env: &Env, predicate: &Predicate) -> (r: Result<(), TypeError>)
    ensures
        r is Ok <==> predicate_parameter_ok(env@, pred_param(predicate@)),
        r matches Err(e) ==> predicate_parameter_err(env@, pred_param(predicate@), e@),
{
    match predicate {
        Predicate::Parameter(_, p) => check_predicate_parameter(env, p),
        Predicate::Variance(_, p) => check_predicate_parameter(env, p),
    }
}

/// Checks every predicate, stopping at the first that is not well formed.
pub fn check_predicates(env: &Env, predicates: &Vec<Predicate>) -> (r: Result<(), TypeError>)
    ensures
        r is Ok <==> forall|i: int| 0 <= i < predicates@.len() ==> predicate_parameter_ok(env@, pred_param(#[trigger] predicates@[i]@)),
        r matches Err(e) ==> exists|i: int| 0 <= i < predicates@.len()
            && (forall|j: int| 0 <= j < i ==> predicate_parameter_ok(env@, pred_param(#[trigger] predicates@[j]@)))
            && predicate_parameter_err(env@, pred_param(#[trigger] predicates@[i]@), e@),
{
    let mut i: usize = 0;
    while i < predicates.len()
        invariant
            i <= predicates@.len(),
            forall|j: int| 0 <= j < i ==> predicate_parameter_ok(env@, pred_param(#[trigger] predicates@[j]@)),
        decreases predicates.len() - i,
    {
        match check_predicate(env, &predicates[i]) {
            Ok(()) => {},
            Err(e) => {
                assert(predicate_parameter_err(env@, pred_param(predicates@[i as int]@), e@));
                return Err(e);
            },
        }
        i = i + 1;
    }
    Ok(())
}


// ---------------------------------------------------------------------------
// Laws
// ---------------------------------------------------------------------------

/// Whatever the environment assumes is provable.
pub proof fn law_assumption_is_provable(env: SEnv, pred: SPredicate, fuel: nat)
    requires
        env.assumptions.contains(pred),
    ensures
        provable(env, pred, fuel),
{
}

/// `move(P)` follows from `mut(P)`.
pub proof fn law_mut_implies_move(env: SEnv, p: SParameter, fuel: nat)
    requires
        provable(env, pp(ParameterPredicate::Mut, p), fuel),
    ensures
        provable(env, pp(ParameterPredicate::Move, p), fuel),
{
    assert(rule_holds(env, pp(ParameterPredicate::Move, p), fuel));
}

/// `shared` is `copy` and `owned` together.
pub proof fn law_copy_and_owned_is_shared(env: SEnv, p: SParameter, fuel: nat)
    requires
        provable(env, pp(ParameterPredicate::Copy, p), fuel),
        provable(env, pp(ParameterPredicate::Owned, p), fuel),
    ensures
        provable(env, pp(ParameterPredicate::Shared, p), fuel),
{
    assert(rule_holds(env, pp(ParameterPredicate::Shared, p), fuel));
}

/// A reference is always copy, whatever it refers to.
pub proof fn law_ref_is_copy(env: SEnv, s: Set<SPlace>, fuel: nat)
    ensures
        provable(env, pp(ParameterPredicate::Copy, perm_param(SPerm::Rf(s))), fuel),
{
    assert(rule_holds(env, pp(ParameterPredicate::Copy, perm_param(SPerm::Rf(s))), fuel));
}

/// `given` is move, owned and given; `shared` is copy, owned and shared.
pub proof fn law_given_and_shared(env: SEnv, fuel: nat)
    ensures
        provable(env, pp(ParameterPredicate::Move, perm_param(SPerm::Given)), fuel),
        provable(env, pp(ParameterPredicate::Owned, perm_param(SPerm::Given)), fuel),
        provable(env, pp(ParameterPredicate::Given, perm_param(SPerm::Given)), fuel),
        provable(env, pp(ParameterPredicate::Copy, perm_param(SPerm::Shared)), fuel),
        provable(env, pp(ParameterPredicate::Owned, perm_param(SPerm::Shared)), fuel),
        provable(env, pp(ParameterPredicate::Shared, perm_param(SPerm::Shared)), fuel),
{
    assert(rule_holds(env, pp(ParameterPredicate::Move, perm_param(SPerm::Given)), fuel));
    assert(rule_holds(env, pp(ParameterPredicate::Owned, perm_param(SPerm::Given)), fuel));
    assert(rule_holds(env, pp(ParameterPredicate::Given, perm_param(SPerm::Given)), fuel));
    assert(rule_holds(env, pp(ParameterPredicate::Copy, perm_param(SPerm::Shared)), fuel));
    assert(rule_holds(env, pp(ParameterPredicate::Owned, perm_param(SPerm::Shared)), fuel));
    assert(rule_holds(env, pp(ParameterPredicate::Shared, perm_param(SPerm::Shared)), fuel));
}

/// When the right-hand side of an application is copy, the application
/// meets exactly the predicates its right-hand side meets.
pub proof fn law_apply_to_copy(env: SEnv, k: ParameterPredicate, l: SPerm, r: SPerm, fuel: nat)
    requires
        provable(env, pp(ParameterPredicate::Copy, perm_param(r)), fuel),
        k == ParameterPredicate::Copy || k == ParameterPredicate::Move || k == ParameterPredicate::Owned || k == ParameterPredicate::Mut,
        !env.assumptions.contains(pp(k, perm_param(SPerm::Apply(Box::new(l), Box::new(r))))),
        k == ParameterPredicate::Move ==> !provable(env, pp(ParameterPredicate::Mut, perm_param(SPerm::Apply(Box::new(l), Box::new(r)))), fuel),
    ensures
        provable(env, pp(k, perm_param(SPerm::Apply(Box::new(l), Box::new(r)))), fuel) == provable(env, pp(k, perm_param(r)), fuel),
{
    let p = pp(k, perm_param(SPerm::Apply(Box::new(l), Box::new(r))));
    assert(rule_holds(env, p, fuel) == compose(env, k, perm_param(l), perm_param(r), fuel));
}

/// A named type not assumed copy is copy exactly when it is a shared type
/// (a tuple, `Int`, `Bool`, or a class declared shared) and every one of its
/// generic arguments is copy: a tuple with a component of a given class is
/// not copy, nor is any type of a given or share class.
pub proof fn law_named_type_copy(env: SEnv, n: SNamedTy, fuel: nat)
    requires
        !env.assumptions.contains(pp(ParameterPredicate::Copy, SParameter::Ty(STy::NamedTy(n)))),
    ensures
        provable(env, pp(ParameterPredicate::Copy, SParameter::Ty(STy::NamedTy(n))), fuel) <==> {
            &&& match n.name {
                STypeName::Id(c) => class_index(env.program, c) >= 0
                    && env.program[class_index(env.program, c)].class_predicate == ClassPredicate::Shared,
                _ => true,
            }
            &&& forall|i: int| 0 <= i < n.parameters.len() ==> provable(env, pp(ParameterPredicate::Copy, #[trigger] n.parameters[i]), fuel)
        },
{
    lemma_all_params(env, ParameterPredicate::Copy, n.parameters, fuel);
}

/// A named type not assumed share can be shared exactly when it is a tuple,
/// `Int`, `Bool` or a class declared share or shared, and every one of its
/// generic arguments can be shared: a type of a given class cannot.
pub proof fn law_named_type_share(env: SEnv, n: SNamedTy, fuel: nat)
    requires
        !env.assumptions.contains(pp(ParameterPredicate::Share, SParameter::Ty(STy::NamedTy(n)))),
    ensures
        provable(env, pp(ParameterPredicate::Share, SParameter::Ty(STy::NamedTy(n))), fuel) <==> {
            &&& match n.name {
                STypeName::Id(c) => class_index(env.program, c) >= 0
                    && env.program[class_index(env.program, c)].class_predicate != ClassPredicate::Given,
                _ => true,
            }
            &&& forall|i: int| 0 <= i < n.parameters.len() ==> provable(env, pp(ParameterPredicate::Share, #[trigger] n.parameters[i]), fuel)
        },
{
    lemma_all_params(env, ParameterPredicate::Share, n.parameters, fuel);
}

/// A named type not assumed owned is owned exactly when its name is known (a
/// tuple, `Int`, `Bool` or a declared class) and every generic argument is
/// owned.
pub proof fn law_named_type_owned(env: SEnv, n: SNamedTy, fuel: nat)
    requires
        !env.assumptions.contains(pp(ParameterPredicate::Owned, SParameter::Ty(STy::NamedTy(n)))),
    ensures
        provable(env, pp(ParameterPredicate::Owned, SParameter::Ty(STy::NamedTy(n))), fuel) <==> {
            &&& match n.name {
                STypeName::Id(c) => class_index(env.program, c) >= 0,
                _ => true,
            }
            &&& forall|i: int| 0 <= i < n.parameters.len() ==> provable(env, pp(ParameterPredicate::Owned, #[trigger] n.parameters[i]), fuel)
        },
{
    lemma_all_params(env, ParameterPredicate::Owned, n.parameters, fuel);
}

/// A type of a declared class that is not declared shared is move, whatever
/// its generic arguments; a type of a shared type with no arguments (such as
/// `Int`) is not move unless assumed or mutable.
pub proof fn law_unshared_class_types_move(env: SEnv, n: SNamedTy, fuel: nat)
    ensures
        (match n.name {
            STypeName::Id(c) => class_index(env.program, c) >= 0
                && env.program[class_index(env.program, c)].class_predicate != ClassPredicate::Shared,
            _ => false,
        }) ==> provable(env, pp(ParameterPredicate::Move, SParameter::Ty(STy::NamedTy(n))), fuel),
        (n.parameters.len() == 0 && !(n.name is Id)
            && !env.assumptions.contains(pp(ParameterPredicate::Move, SParameter::Ty(STy::NamedTy(n))))
            && !provable(env, pp(ParameterPredicate::Mut, SParameter::Ty(STy::NamedTy(n))), fuel))
            ==> !provable(env, pp(ParameterPredicate::Move, SParameter::Ty(STy::NamedTy(n))), fuel),
{
    lemma_any_param(env, ParameterPredicate::Move, n.parameters, fuel);
}

} // verus!
