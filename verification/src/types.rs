//! Well-formedness of types, permissions and places: every class named
//! exists and gets parameters of the right kinds, every generic variable is
//! in scope, and every place has a type.
use vstd::prelude::*;

use crate::binder::{check_instantiation, instantiation_error};
use crate::env::{Env, SEnv};
use crate::errors::{STypeError, TypeError};
use crate::grammar::{
    class_index, lemma_parameters_view, lemma_perms_view, lemma_place_set_contains, parameters_view,
    perms_view, place_set, Kind, Parameter, Perm, Place, SParameter, SPerm, SPlace, STy, STypeName,
    Ty, TypeName, Variable,
};
use crate::places::place_ty_of;

verus! {

/// True if the generic variable `v` may be used in `env`.
pub open spec fn in_scope(env: SEnv, v: Variable) -> bool {
    match v {
        Variable::UniversalVar(u) => env.in_scope_vars.contains(v) && u.var_index < env.universe,
        Variable::ExistentialVar(_) => false,
        Variable::BoundVar(_) => true,
    }
}

/// What is wrong with naming the type `name` with `params`, if anything:
/// an unknown class, or parameters that do not fit its generics. A tuple
/// of `n` takes `n` types; integers and booleans take none.
pub open spec fn name_error(env: SEnv, name: STypeName, params: Seq<SParameter>) -> Option<STypeError> {
    match name {
        STypeName::Id(c) => {
            let i = class_index(env.program, c);
            if i < 0 {
                Some(STypeError::NoSuchClass(c))
            } else {
                instantiation_error(env.program[i].kinds, params)
            }
        },
        STypeName::Tuple(n) => instantiation_error(Seq::new(n as nat, |_i: int| Kind::Ty), params),
        _ => if params.len() == 0 {
            None
        } else {
            Some(STypeError::WrongParameterCount)
        },
    }
}

/// Every place of `s` has a type.
pub open spec fn places_ok(env: SEnv, s: Set<SPlace>) -> bool {
    forall|q: SPlace| s.contains(q) ==> place_ty_of(env, q) is Ok
}

pub open spec fn ty_ok(env: SEnv, t: STy) -> bool
    decreases t,
{
    match t {
        STy::NamedTy(n) => name_error(env, n.name, n.parameters) is None && params_ok(env, n.parameters),
        STy::Var(v) => in_scope(env, v),
        STy::ApplyPerm(p, inner) => perm_ok(env, p) && ty_ok(env, *inner),
    }
}

pub open spec fn perm_ok(env: SEnv, p: SPerm) -> bool
    decreases p,
{
    match p {
        SPerm::Given => true,
        SPerm::Shared => true,
        SPerm::Mv(s) => places_ok(env, s),
        SPerm::Rf(s) => places_ok(env, s),
        SPerm::Mt(s) => places_ok(env, s),
        SPerm::Var(v) => in_scope(env, v),
        SPerm::Apply(l, r) => perm_ok(env, *l) && perm_ok(env, *r),
        SPerm::Or(ps) => perms_ok(env, ps),
    }
}

pub open spec fn perms_ok(env: SEnv, ps: Seq<SPerm>) -> bool
    decreases ps,
{
    if ps.len() == 0 {
        true
    } else {
        perm_ok(env, ps[0]) && perms_ok(env, ps.subrange(1, ps.len() as int))
    }
}

pub open spec fn param_ok(env: SEnv, p: SParameter) -> bool
    decreases p,
{
    match p {
        SParameter::Ty(t) => ty_ok(env, t),
        SParameter::Perm(q) => perm_ok(env, q),
    }
}

pub open spec fn params_ok(env: SEnv, ps: Seq<SParameter>) -> bool
    decreases ps,
{
    if ps.len() == 0 {
        true
    } else {
        param_ok(env, ps[0]) && params_ok(env, ps.subrange(1, ps.len() as int))
    }
}

/// `e` is the error reported for the type `t`: the first problem found
/// going left to right (for a set of places, the problem of one of them).
pub open spec fn ty_err(env: SEnv, t: STy, e: STypeError) -> bool
    decreases t,
{
    match t {
        STy::NamedTy(n) => match name_error(env, n.name, n.parameters) {
            Some(x) => e == x,
            None => params_err(env, n.parameters, e),
        },
        STy::Var(v) => !in_scope(env, v) && e == STypeError::VariableNotInScope(v),
        STy::ApplyPerm(p, inner) => if !perm_ok(env, p) {
            perm_err(env, p, e)
        } else {
            ty_err(env, *inner, e)
        },
    }
}

pub open spec fn perm_err(env: SEnv, p: SPerm, e: STypeError) -> bool
    decreases p,
{
    match p {
        SPerm::Given => false,
        SPerm::Shared => false,
        SPerm::Mv(s) => places_err(env, s, e),
        SPerm::Rf(s) => places_err(env, s, e),
        SPerm::Mt(s) => places_err(env, s, e),
        SPerm::Var(v) => !in_scope(env, v) && e == STypeError::VariableNotInScope(v),
        SPerm::Apply(l, r) => if !perm_ok(env, *l) {
            perm_err(env, *l, e)
        } else {
            perm_err(env, *r, e)
        },
        SPerm::Or(ps) => perms_err(env, ps, e),
    }
}

/// `e` is the error of some place of `s`.
pub open spec fn places_err(env: SEnv, s: Set<SPlace>, e: STypeError) -> bool {
    exists|q: SPlace| s.contains(q) && place_ty_of(env, q) == Err::<STy, STypeError>(e)
}

pub open spec fn perms_err(env: SEnv, ps: Seq<SPerm>, e: STypeError) -> bool
    decreases ps,
{
    if ps.len() == 0 {
        false
    } else if !perm_ok(env, ps[0]) {
        perm_err(env, ps[0], e)
    } else {
        perms_err(env, ps.subrange(1, ps.len() as int), e)
    }
}

pub open spec fn param_err(env: SEnv, p: SParameter, e: STypeError) -> bool
    decreases p,
{
    match p {
        SParameter::Ty(t) => ty_err(env, t, e),
        SParameter::Perm(q) => perm_err(env, q, e),
    }
}

pub open spec fn params_err(env: SEnv, ps: Seq<SParameter>, e: STypeError) -> bool
    decreases ps,
{
    if ps.len() == 0 {
        false
    } else if !param_ok(env, ps[0]) {
        param_err(env, ps[0], e)
    } else {
        params_err(env, ps.subrange(1, ps.len() as int), e)
    }
}

/// Skipping a prefix of well-formed parameters changes neither the verdict
/// nor the error.
proof fn lemma_params_skip(env: SEnv, ps: Seq<SParameter>, i: int)
    requires
        0 <= i <= ps.len(),
        forall|j: int| 0 <= j < i ==> param_ok(env, #[trigger] ps[j]),
    ensures
        params_ok(env, ps) == params_ok(env, ps.subrange(i, ps.len() as int)),
        forall|e: STypeError| params_err(env, ps, e) == params_err(env, ps.subrange(i, ps.len() as int), e),
    decreases i,
{
    if i == 0 {
        assert(ps.subrange(0, ps.len() as int) =~= ps);
    } else {
        let t = ps.subrange(1, ps.len() as int);
        assert forall|j: int| 0 <= j < i - 1 implies param_ok(env, #[trigger] t[j]) by {
            assert(t[j] == ps[j + 1]);
        }
        lemma_params_skip(env, t, i - 1);
        assert(t.subrange(i - 1, t.len() as int) =~= ps.subrange(i, ps.len() as int));
        assert(param_ok(env, ps[0]));
        assert forall|e: STypeError| params_err(env, ps, e) == params_err(env, t, e) by {}
    }
}

proof fn lemma_perms_skip(env: SEnv, ps: Seq<SPerm>, i: int)
    requires
        0 <= i <= ps.len(),
        forall|j: int| 0 <= j < i ==> perm_ok(env, #[trigger] ps[j]),
    ensures
        perms_ok(env, ps) == perms_ok(env, ps.subrange(i, ps.len() as int)),
        forall|e: STypeError| perms_err(env, ps, e) == perms_err(env, ps.subrange(i, ps.len() as int), e),
    decreases i,
{
    if i == 0 {
        assert(ps.subrange(0, ps.len() as int) =~= ps);
    } else {
        let t = ps.subrange(1, ps.len() as int);
        assert forall|j: int| 0 <= j < i - 1 implies perm_ok(env, #[trigger] t[j]) by {
            assert(t[j] == ps[j + 1]);
        }
        lemma_perms_skip(env, t, i - 1);
        assert(t.subrange(i - 1, t.len() as int) =~= ps.subrange(i, ps.len() as int));
        assert(perm_ok(env, ps[0]));
        assert forall|e: STypeError| perms_err(env, ps, e) == perms_err(env, t, e) by {}
    }
}

/// Checks that `place` has a type.
pub fn check_place(env: &Env, place: &Place) -> (r: Result<(), TypeError>)
    ensures
        r is Ok <==> place_ty_of(env@, place@) is Ok,
        r matches Err(e) ==> place_ty_of(env@, place@) == Err::<STy, STypeError>(e@),
{
    match env.place_ty(place) {
        Ok(_) => Ok(()),
        Err(e) => Err(e),
    }
}

fn check_places(env: &Env, places: &Vec<Place>) -> (r: Result<(), TypeError>)
    ensures
        r is Ok <==> places_ok(env@, place_set(places@)),
        r matches Err(e) ==> places_err(env@, place_set(places@), e@),
{
    let mut i: usize = 0;
    while i < places.len()
        invariant
            i <= places@.len(),
            forall|j: int| 0 <= j < i ==> place_ty_of(env@, #[trigger] places@[j]@) is Ok,
        decreases places.len() - i,
    {
        match check_place(env, &places[i]) {
            Ok(()) => {},
            Err(e) => {
                proof {
                    lemma_place_set_contains(places@, places@[i as int]@);
                }
                return Err(e);
            },
        }
        i = i + 1;
    }
    proof {
        assert forall|q: SPlace| place_set(places@).contains(q) implies place_ty_of(env@, q) is Ok by {
            lemma_place_set_contains(places@, q);
            let j = choose|j: int| 0 <= j < places@.len() && #[trigger] places@[j]@ == q;
            assert(place_ty_of(env@, places@[j]@) is Ok);
        }
    }
    Ok(())
}

fn check_name(env: &Env, name: &TypeName, params: &Vec<Parameter>) -> (r: Result<(), TypeError>)
    ensures
        match name_error(env@, name@, parameters_view(params@)) {
            Some(e) => r matches Err(x) && x@ == e,
            None => r is Ok,
        },
{
    match name {
        TypeName::Id(c) => {
            match env.program().class_named(c) {
                Some(decl) => check_instantiation(&decl.binder.kinds, params),
                None => Err(TypeError::NoSuchClass(c.copy())),
            }
        },
        TypeName::Tuple(n) => {
            let mut kinds: Vec<Kind> = Vec::new();
            let mut i: usize = 0;
            while i < *n
                invariant
                    i <= *n,
                    kinds@ == Seq::new(i as nat, |_j: int| Kind::Ty),
                decreases *n - i,
            {
                kinds.push(Kind::Ty);
                i = i + 1;
                assert(kinds@ =~= Seq::new(i as nat, |_j: int| Kind::Ty));
            }
            check_instantiation(&kinds, params)
        },
        _ => {
            if params.len() == 0 {
                Ok(())
            } else {
                Err(TypeError::WrongParameterCount)
            }
        },
    }
}

/// Checks that the type is well formed in `env`.
pub fn check_type(env: &Env, ty: &Ty) -> (r: Result<(), TypeError>)
    ensures
        r is Ok <==> ty_ok(env@, ty@),
        r matches Err(e) ==> ty_err(env@, ty@, e@),
    decreases ty,
{
    match ty {
        Ty::NamedTy(n) => {
            proof {
                assert(decreases_to!(*ty => (*ty)->NamedTy_0));
            }
            match check_name(env, &n.name, &n.parameters) {
                Ok(()) => {},
                Err(e) => return Err(e),
            }
            check_parameters(env, &n.parameters)
        },
        Ty::Var(v) => {
            if env.var_in_scope(*v) {
                Ok(())
            } else {
                Err(TypeError::VariableNotInScope(*v))
            }
        },
        Ty::ApplyPerm(p, inner) => {
            match check_perm(env, p) {
                Ok(()) => {},
                Err(e) => return Err(e),
            }
            check_type(env, inner)
        },
    }
}

/// Checks that the permission is well formed in `env`.
pub fn check_perm(env: &Env, perm: &Perm) -> (r: Result<(), TypeError>)
    ensures
        r is Ok <==> perm_ok(env@, perm@),
        r matches Err(e) ==> perm_err(env@, perm@, e@),
    decreases perm,
{
    match perm {
        Perm::Given => Ok(()),
        Perm::Shared => Ok(()),
        Perm::Mv(places) => check_places(env, places),
        Perm::Rf(places) => check_places(env, places),
        Perm::Mt(places) => check_places(env, places),
        Perm::Var(v) => {
            if env.var_in_scope(*v) {
                Ok(())
            } else {
                Err(TypeError::VariableNotInScope(*v))
            }
        },
        Perm::Apply(l, r) => {
            match check_perm(env, l) {
                Ok(()) => {},
                Err(e) => return Err(e),
            }
            check_perm(env, r)
        },
        Perm::Or(ps) => {
            let ghost pv = perms_view(ps@);
            proof {
                lemma_perms_view(ps@);
            }
            let mut i: usize = 0;
            while i < ps.len()
                invariant
                    *perm == Perm::Or(*ps),
                    pv == perms_view(ps@),
                    pv.len() == ps@.len(),
                    forall|j: int| 0 <= j < ps@.len() ==> #[trigger] pv[j] == ps@[j]@,
                    i <= ps@.len(),
                    forall|j: int| 0 <= j < i ==> perm_ok(env@, #[trigger] pv[j]),
                decreases ps.len() - i,
            {
                proof {
                    assert(decreases_to!(*perm => (*perm)->Or_0));
                }
                match check_perm(env, &ps[i]) {
                    Ok(()) => {},
                    Err(e) => {
                        proof {
                            lemma_perms_skip(env@, pv, i as int);
                            let t = pv.subrange(i as int, pv.len() as int);
                            assert(t[0] == pv[i as int]);
                            assert(perms_err(env@, t, e@));
                            assert(perms_err(env@, pv, e@));
                            assert(perm@ == SPerm::Or(pv));
                            assert(perm_err(env@, SPerm::Or(pv), e@));
                        }
                        return Err(e);
                    },
                }
                i = i + 1;
            }
            proof {
                lemma_perms_skip(env@, pv, i as int);
                assert(pv.subrange(i as int, pv.len() as int).len() == 0);
            }
            Ok(())
        },
    }
}

/// Checks that the generic argument is well formed in `env`.
pub fn check_parameter(env: &Env, p: &Parameter) -> (r: Result<(), TypeError>)
    ensures
        r is Ok <==> param_ok(env@, p@),
        r matches Err(e) ==> param_err(env@, p@, e@),
    decreases p,
{
    match p {
        Parameter::Ty(t) => check_type(env, t),
        Parameter::Perm(q) => check_perm(env, q),
    }
}

fn check_parameters(env: &Env, ps: &Vec<Parameter>) -> (r: Result<(), TypeError>)
    ensures
        r is Ok <==> params_ok(env@, parameters_view(ps@)),
        r matches Err(e) ==> params_err(env@, parameters_view(ps@), e@),
    decreases ps,
{
    let ghost pv = parameters_view(ps@);
    proof {
        lemma_parameters_view(ps@);
    }
    let mut i: usize = 0;
    while i < ps.len()
        invariant
            pv == parameters_view(ps@),
            pv.len() == ps@.len(),
            forall|j: int| 0 <= j < ps@.len() ==> #[trigger] pv[j] == ps@[j]@,
            i <= ps@.len(),
            forall|j: int| 0 <= j < i ==> param_ok(env@, #[trigger] pv[j]),
        decreases ps.len() - i,
    {
        proof {
            assert(decreases_to!(ps => ps@));
        }
        match check_parameter(env, &ps[i]) {
            Ok(()) => {},
            Err(e) => {
                proof {
                    lemma_params_skip(env@, pv, i as int);
                    let t = pv.subrange(i as int, pv.len() as int);
                    assert(t[0] == pv[i as int]);
                }
                return Err(e);
            },
        }
        i = i + 1;
    }
    proof {
        lemma_params_skip(env@, pv, i as int);
        assert(pv.subrange(i as int, pv.len() as int).len() == 0);
    }
    Ok(())
}

} // verus!
