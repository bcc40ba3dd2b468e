//! Subtyping: when a value of one type (or permission) may be used where
//! another is expected.
use vstd::prelude::*;

use crate::classes::{class_var, variances_for};
use crate::env::{Env, SEnv};
use crate::grammar::{
    SNamedTy, class_index, lemma_parameters_view, ClassPredicate, Parameter, ParameterPredicate, Perm,
    SClassDecl, SParameter, SPerm, STy, STypeName, Ty, TypeName, Variable, VarianceKind,
};
use crate::liveness::{LivePlaces, SLivePlaces};
use crate::predicates::{pp, provable, prove_is_copy, prove_is_owned, shared_name};
use crate::redperms::{sub_red, sub_red_perms};

verus! {

/// A type split into the permission it is held with and the type under
/// it: nested applied permissions are composed, and a type with no applied
/// permission is held `given`.
pub open spec fn perm_ty_parts(t: STy) -> (SPerm, STy)
    decreases t,
{
    match t {
        STy::ApplyPerm(p, inner) => if *inner is ApplyPerm {
            let parts = perm_ty_parts(*inner);
            (SPerm::Apply(Box::new(p), Box::new(parts.0)), parts.1)
        } else {
            (p, *inner)
        },
        _ => (SPerm::Given, t),
    }
}

/// The permission `p` applied to a generic argument.
pub open spec fn apply_param(p: SPerm, x: SParameter) -> SParameter {
    match x {
        SParameter::Ty(t) => SParameter::Ty(STy::ApplyPerm(p, Box::new(t))),
        SParameter::Perm(q) => SParameter::Perm(SPerm::Apply(Box::new(p), Box::new(q))),
    }
}

/// The declared variances of each generic parameter of the type named
/// `name`; `None` when no class has that name.
pub open spec fn name_variances(program: Seq<SClassDecl>, name: STypeName) -> Option<Seq<Seq<VarianceKind>>> {
    match name {
        STypeName::Tuple(n) => Some(Seq::new(n as nat, |i: int| Seq::<VarianceKind>::empty())),
        STypeName::Int | STypeName::Bool => Some(Seq::empty()),
        STypeName::Id(c) => {
            let i = class_index(program, c);
            if i >= 0 {
                Some(Seq::new(program[i].kinds.len(), |j: int| variances_for(program[i].data.predicates, class_var(j, program[i].kinds[j]))))
            } else {
                None
            }
        },
    }
}

/// The shape of a type: its named types and variables, permissions
/// ignored. Subtyping recurses into the arguments of a named type, whose
/// shapes are smaller.
pub open spec fn shape(t: STy) -> nat
    decreases t,
{
    match t {
        STy::NamedTy(n) => 1 + shapes(n.parameters),
        STy::Var(_) => 1,
        STy::ApplyPerm(_, inner) => shape(*inner),
    }
}

pub open spec fn param_shape(x: SParameter) -> nat
    decreases x,
{
    match x {
        SParameter::Ty(t) => shape(t),
        SParameter::Perm(_) => 0,
    }
}

pub open spec fn shapes(s: Seq<SParameter>) -> nat
    decreases s,
{
    if s.len() == 0 {
        0
    } else {
        shapes(s.drop_last()) + param_shape(s.last())
    }
}

/// Splitting off the permissions keeps the shape.
pub proof fn lemma_parts_shape(t: STy)
    ensures
        shape(perm_ty_parts(t).1) == shape(t),
    decreases t,
{
    match t {
        STy::ApplyPerm(_, inner) => {
            lemma_parts_shape(*inner);
        },
        _ => {},
    }
}

/// Applying a permission keeps the shape.
pub proof fn lemma_apply_shape(p: SPerm, x: SParameter)
    ensures
        param_shape(apply_param(p, x)) == param_shape(x),
{
    match x {
        SParameter::Ty(t) => {
            assert(shape(STy::ApplyPerm(p, Box::new(t))) == shape(t));
        },
        SParameter::Perm(_) => {},
    }
}

/// Each argument's shape is at most the shapes of all of them.
pub proof fn lemma_shapes_bound(s: Seq<SParameter>, i: int)
    requires
        0 <= i < s.len(),
    ensures
        param_shape(s[i]) <= shapes(s),
    decreases s.len(),
{
    if i < s.len() - 1 {
        lemma_shapes_bound(s.drop_last(), i);
    }
}

/// `a <: b`; `fuel` bounds the proofs of permission subtyping and of
/// predicates. Two permissions are compared by reducing them. Two types are
/// split into permission and underlying type; then
/// - the same type variable is a subtype of itself when the permissions are;
/// - on a shared type, the permissions distribute into the arguments,
///   which must be pairwise subtypes;
/// - on the same named type, the permissions must be subtypes, and each
///   argument must be a subtype in both directions, or, for an argument
///   declared with no variance, a subtype once the permissions are applied
///   to it, provided the expected permission is copy or owned.
pub open spec fn sub_rel(env: SEnv, l: SLivePlaces, a: SParameter, b: SParameter, fuel: nat) -> bool
    decreases param_shape(a) + param_shape(b), 0nat, 0nat,
{
    match a {
        SParameter::Perm(pa) => match b {
            SParameter::Perm(pb) => sub_red(env, l, pa, pb, fuel),
            SParameter::Ty(_) => false,
        },
        SParameter::Ty(ta) => match b {
            SParameter::Ty(tb) => match perm_ty_parts(ta).1 {
                STy::Var(va) => perm_ty_parts(tb).1 == STy::Var(va) && sub_red(env, l, perm_ty_parts(ta).0, perm_ty_parts(tb).0, fuel),
                STy::NamedTy(na) => match perm_ty_parts(tb).1 {
                    STy::NamedTy(nb) => {
                        proof {
                            lemma_parts_shape(ta);
                            lemma_parts_shape(tb);
                        }
                        let pa = perm_ty_parts(ta).0;
                        let pb = perm_ty_parts(tb).0;
                        &&& na.name == nb.name
                        &&& nb.parameters.len() == na.parameters.len()
                        &&& {
                            ||| (shared_name(env.program, na.name) == Some(true)
                                && sub_applied_all(env, l, pa, na.parameters, pb, nb.parameters, fuel))
                            ||| (sub_red(env, l, pa, pb, fuel) && match name_variances(env.program, na.name) {
                                Some(vs) => vs.len() == na.parameters.len()
                                    && sub_generic_all(env, l, vs, pa, na.parameters, pb, nb.parameters, fuel),
                                None => false,
                            })
                        }
                    },
                    _ => false,
                },
                _ => false,
            },
            SParameter::Perm(_) => false,
        },
    }
}

/// Each argument in `xs`, under `pa`, is a subtype of the argument at the
/// same position in `ys`, under `pb` (the permissions distributing into the
/// arguments of a shared type).
pub open spec fn sub_applied_all(env: SEnv, l: SLivePlaces, pa: SPerm, xs: Seq<SParameter>, pb: SPerm, ys: Seq<SParameter>, fuel: nat) -> bool
    decreases shapes(xs) + shapes(ys), 1nat, xs.len(),
{
    if xs.len() != ys.len() {
        false
    } else if xs.len() == 0 {
        true
    } else {
        proof {
            lemma_apply_shape(pa, xs.last());
            lemma_apply_shape(pb, ys.last());
        }
        &&& sub_applied_all(env, l, pa, xs.drop_last(), pb, ys.drop_last(), fuel)
        &&& sub_rel(env, l, apply_param(pa, xs.last()), apply_param(pb, ys.last()), fuel)
    }
}

/// One argument of a named type, declared with variances `v`, under the
/// permissions `pa` and `pb`: a subtype in both directions, or, with no
/// declared variance and `pb` copy or owned, a subtype once the
/// permissions are applied.
pub open spec fn sub_generic_rule(env: SEnv, l: SLivePlaces, v: Seq<VarianceKind>, pa: SPerm, x: SParameter, pb: SPerm, y: SParameter, fuel: nat) -> bool
    decreases param_shape(x) + param_shape(y), 1nat, 0nat,
{
    proof {
        lemma_apply_shape(pa, x);
        lemma_apply_shape(pb, y);
    }
    ||| (sub_rel(env, l, x, y, fuel) && sub_rel(env, l, y, x, fuel))
    ||| (v.len() == 0
        && (provable(env, pp(ParameterPredicate::Copy, SParameter::Perm(pb)), fuel)
            || provable(env, pp(ParameterPredicate::Owned, SParameter::Perm(pb)), fuel))
        && sub_rel(env, l, apply_param(pa, x), apply_param(pb, y), fuel))
}

/// Each argument in `xs` meets [`sub_generic_rule`] against the argument at
/// the same position in `ys`, with the variances in `vs`.
pub open spec fn sub_generic_all(env: SEnv, l: SLivePlaces, vs: Seq<Seq<VarianceKind>>, pa: SPerm, xs: Seq<SParameter>, pb: SPerm, ys: Seq<SParameter>, fuel: nat) -> bool
    decreases shapes(xs) + shapes(ys), 2nat, xs.len(),
{
    if xs.len() != ys.len() {
        false
    } else if xs.len() == 0 {
        true
    } else {
        &&& sub_generic_all(env, l, vs, pa, xs.drop_last(), pb, ys.drop_last(), fuel)
        &&& sub_generic_rule(env, l, vs[xs.len() - 1], pa, xs.last(), pb, ys.last(), fuel)
    }
}

/// Splits a type into the permission it is held with and the type under it
/// (see [`perm_ty_parts`]).
pub fn split_perm_ty(t: &Ty) -> (r: (Perm, Ty))
    ensures
        (r.0@, r.1@) == perm_ty_parts(t@),
    decreases t,
{
    match t {
        Ty::ApplyPerm(p, inner) => match &**inner {
            Ty::ApplyPerm(_, _) => {
                let (q, u) = split_perm_ty(inner);
                (Perm::Apply(Box::new(p.copy()), Box::new(q)), u)
            },
            _ => (p.copy(), inner.copy()),
        },
        _ => (Perm::Given, t.copy()),
    }
}

/// The permission `p` applied to a generic argument.
pub fn apply_to_parameter(p: &Perm, x: &Parameter) -> (r: Parameter)
    ensures
        r@ == apply_param(p@, x@),
{
    match x {
        Parameter::Ty(t) => Parameter::Ty(Ty::ApplyPerm(p.copy(), Box::new(t.copy()))),
        Parameter::Perm(q) => Parameter::Perm(Perm::Apply(Box::new(p.copy()), Box::new(q.copy()))),
    }
}

/// True if `name` names a shared type (a value type or a shared class).
fn is_shared_ty(env: &Env, name: &TypeName) -> (r: bool)
    ensures
        r == (shared_name(env@.program, name@) == Some(true)),
{
    match name {
        TypeName::Id(c) => {
            let prog = env.program();
            assert(prog@ == env@.program);
            match prog.class_named(c) {
                Some(decl) => decl.class_predicate == ClassPredicate::Shared,
                None => false,
            }
        },
        _ => true,
    }
}

/// True if `a <: b` (see [`sub_rel`]).
#[verifier::loop_isolation(false)]
pub fn sub(env: &Env, live_after: &LivePlaces, a: &Parameter, b: &Parameter, fuel: usize) -> (r: bool)
    ensures
        r == sub_rel(env@, live_after@, a@, b@, fuel as nat),
    decreases param_shape(a@) + param_shape(b@),
{
    match (a, b) {
        (Parameter::Perm(pa), Parameter::Perm(pb)) => sub_red_perms(env, live_after, pa, pb, fuel),
        (Parameter::Ty(ta), Parameter::Ty(tb)) => {
            let (pa, xa) = split_perm_ty(ta);
            let (pb, xb) = split_perm_ty(tb);
            match (&xa, &xb) {
                (Ty::Var(va), Ty::Var(vb)) => {
                    if *va == *vb {
                        sub_red_perms(env, live_after, &pa, &pb, fuel)
                    } else {
                        false
                    }
                },
                (Ty::NamedTy(na), Ty::NamedTy(nb)) => {
                    proof {
                        lemma_parameters_view(na.parameters@);
                        lemma_parameters_view(nb.parameters@);
                        lemma_parts_shape(ta@);
                        lemma_parts_shape(tb@);
                        assert(a@ == SParameter::Ty(ta@) && b@ == SParameter::Ty(tb@));
                        assert(perm_ty_parts(ta@).1 == xa@ && perm_ty_parts(tb@).1 == xb@);
                    }
                    let ghost sna = na@;
                    let ghost snb = nb@;
                    let n = na.parameters.len();
                    if !na.name.same(&nb.name) || nb.parameters.len() != n {
                        return false;
                    }
                    assert(sna.parameters.len() == n && snb.parameters.len() == n);
                    if is_shared_ty(env, &na.name) {
                        let mut ok = true;
                        let mut i: usize = 0;
                        while i < n
                            invariant
                                i <= n,
                                ok == sub_applied_all(env@, live_after@, pa@, sna.parameters.take(i as int), pb@, snb.parameters.take(i as int), fuel as nat),
                            decreases n - i,
                        {
                            proof {
                                assert(sna.parameters.take(i + 1).drop_last() =~= sna.parameters.take(i as int));
                                assert(snb.parameters.take(i + 1).drop_last() =~= snb.parameters.take(i as int));
                            }
                            proof {
                                lemma_shapes_bound(sna.parameters, i as int);
                                lemma_shapes_bound(snb.parameters, i as int);
                                lemma_apply_shape(pa@, sna.parameters[i as int]);
                                lemma_apply_shape(pb@, snb.parameters[i as int]);
                            }
                            if ok {
                                let x = apply_to_parameter(&pa, &na.parameters[i]);
                                let y = apply_to_parameter(&pb, &nb.parameters[i]);
                                ok = self::sub(env, live_after, &x, &y, fuel);
                            }
                            i = i + 1;
                        }
                        proof {
                            assert(sna.parameters.take(n as int) =~= sna.parameters);
                            assert(snb.parameters.take(n as int) =~= snb.parameters);
                        }
                        if ok {
                            return true;
                        }
                    }
                    if !sub_red_perms(env, live_after, &pa, &pb, fuel) {
                        return false;
                    }
                    let vs = match env.variances(&na.name) {
                        Ok(vs) => vs,
                        Err(_) => return false,
                    };
                    let ghost svs = name_variances(env@.program, na@.name)->0;
                    assert(vs@.len() == svs.len());
                    assert(forall|j: int| 0 <= j < vs@.len() ==> #[trigger] vs@[j]@ == svs[j]);
                    if vs.len() != n {
                        return false;
                    }
                    let mut ok = true;
                    let mut i: usize = 0;
                    while i < n
                        invariant
                            i <= n,
                            ok == sub_generic_all(env@, live_after@, svs, pa@, sna.parameters.take(i as int), pb@, snb.parameters.take(i as int), fuel as nat),
                        decreases n - i,
                    {
                        proof {
                            assert(sna.parameters.take(i + 1).drop_last() =~= sna.parameters.take(i as int));
                            assert(snb.parameters.take(i + 1).drop_last() =~= snb.parameters.take(i as int));
                        }
                        proof {
                            lemma_shapes_bound(sna.parameters, i as int);
                            lemma_shapes_bound(snb.parameters, i as int);
                            lemma_apply_shape(pa@, sna.parameters[i as int]);
                            lemma_apply_shape(pb@, snb.parameters[i as int]);
                        }
                        if ok {
                            let pi = &na.parameters[i];
                            let qi = &nb.parameters[i];
                            assert(pi@ == sna.parameters[i as int] && qi@ == snb.parameters[i as int]);
                            assert(vs@[i as int]@ == svs[i as int]);
                            let mut this_ok = self::sub(env, live_after, pi, qi, fuel) && self::sub(env, live_after, qi, pi, fuel);
                            if !this_ok && vs[i].len() == 0 {
                                let pbp = Parameter::Perm(pb.copy());
                                if prove_is_copy(env, &pbp, fuel) || prove_is_owned(env, &pbp, fuel) {
                                    let x = apply_to_parameter(&pa, pi);
                                    let y = apply_to_parameter(&pb, qi);
                                    this_ok = self::sub(env, live_after, &x, &y, fuel);
                                }
                            }
                            assert(this_ok == sub_generic_rule(env@, live_after@, svs[i as int], pa@, sna.parameters[i as int], pb@, snb.parameters[i as int], fuel as nat));
                            ok = this_ok;
                        }
                        i = i + 1;
                    }
                    proof {
                        assert(sna.parameters.take(n as int) =~= sna.parameters);
                        assert(snb.parameters.take(n as int) =~= snb.parameters);
                    }
                    ok
                },
                _ => false,
            }
        },
        _ => false,
    }
}

/// Permissions on a shared type with no generic arguments (such as `Int`)
/// make no difference: any permission on it is a subtype of any other.
pub proof fn law_shared_type_permissions_equal(env: SEnv, l: SLivePlaces, pa: SPerm, pb: SPerm, name: STypeName, fuel: nat)
    requires
        shared_name(env.program, name) == Some(true),
    ensures
        sub_rel(
            env,
            l,
            SParameter::Ty(STy::ApplyPerm(pa, Box::new(STy::NamedTy(SNamedTy { name, parameters: Seq::empty() })))),
            SParameter::Ty(STy::ApplyPerm(pb, Box::new(STy::NamedTy(SNamedTy { name, parameters: Seq::empty() })))),
            fuel,
        ),
{
    let n = STy::NamedTy(SNamedTy { name, parameters: Seq::empty() });
    assert(perm_ty_parts(STy::ApplyPerm(pa, Box::new(n))) == (pa, n));
    assert(perm_ty_parts(STy::ApplyPerm(pb, Box::new(n))) == (pb, n));
    assert(sub_applied_all(env, l, pa, Seq::empty(), pb, Seq::empty(), fuel));
}

/// On a type variable, subtyping is decided by the permissions alone:
/// `p T <: q T` exactly when `p <: q`, and a type variable is never a
/// subtype of a different type variable.
pub proof fn law_type_variable_subtyping(env: SEnv, l: SLivePlaces, p: SPerm, q: SPerm, v: Variable, w: Variable, fuel: nat)
    ensures
        sub_rel(env, l, SParameter::Ty(STy::ApplyPerm(p, Box::new(STy::Var(v)))), SParameter::Ty(STy::ApplyPerm(q, Box::new(STy::Var(v)))), fuel)
            == sub_rel(env, l, SParameter::Perm(p), SParameter::Perm(q), fuel),
        sub_rel(env, l, SParameter::Ty(STy::Var(v)), SParameter::Ty(STy::ApplyPerm(q, Box::new(STy::Var(v)))), fuel)
            == sub_rel(env, l, SParameter::Perm(SPerm::Given), SParameter::Perm(q), fuel),
        v != w ==> !sub_rel(env, l, SParameter::Ty(STy::ApplyPerm(p, Box::new(STy::Var(v)))), SParameter::Ty(STy::ApplyPerm(q, Box::new(STy::Var(w)))), fuel),
{
    assert(perm_ty_parts(STy::ApplyPerm(p, Box::new(STy::Var(v)))) == (p, STy::Var(v)));
    assert(perm_ty_parts(STy::ApplyPerm(q, Box::new(STy::Var(v)))) == (q, STy::Var(v)));
    assert(perm_ty_parts(STy::ApplyPerm(q, Box::new(STy::Var(w)))) == (q, STy::Var(w)));
    assert(perm_ty_parts(STy::Var(v)) == (SPerm::Given, STy::Var(v)));
}

/// A type variable and a named type are never subtypes of one another, and
/// named types with different names are never subtypes.
pub proof fn law_different_shapes_are_not_subtypes(env: SEnv, l: SLivePlaces, p: SPerm, q: SPerm, v: Variable, n: SNamedTy, m: SNamedTy, fuel: nat)
    ensures
        !sub_rel(env, l, SParameter::Ty(STy::ApplyPerm(p, Box::new(STy::Var(v)))), SParameter::Ty(STy::ApplyPerm(q, Box::new(STy::NamedTy(n)))), fuel),
        !sub_rel(env, l, SParameter::Ty(STy::ApplyPerm(p, Box::new(STy::NamedTy(n)))), SParameter::Ty(STy::ApplyPerm(q, Box::new(STy::Var(v)))), fuel),
        n.name != m.name ==> !sub_rel(env, l, SParameter::Ty(STy::ApplyPerm(p, Box::new(STy::NamedTy(n)))), SParameter::Ty(STy::ApplyPerm(q, Box::new(STy::NamedTy(m)))), fuel),
        n.parameters.len() != m.parameters.len() ==> !sub_rel(env, l, SParameter::Ty(STy::ApplyPerm(p, Box::new(STy::NamedTy(n)))), SParameter::Ty(STy::ApplyPerm(q, Box::new(STy::NamedTy(m)))), fuel),
        !sub_rel(env, l, SParameter::Perm(p), SParameter::Ty(STy::ApplyPerm(q, Box::new(STy::Var(v)))), fuel),
        !sub_rel(env, l, SParameter::Ty(STy::ApplyPerm(p, Box::new(STy::Var(v)))), SParameter::Perm(q), fuel),
{
    assert(perm_ty_parts(STy::ApplyPerm(p, Box::new(STy::Var(v)))) == (p, STy::Var(v)));
    assert(perm_ty_parts(STy::ApplyPerm(q, Box::new(STy::Var(v)))) == (q, STy::Var(v)));
    assert(perm_ty_parts(STy::ApplyPerm(p, Box::new(STy::NamedTy(n)))) == (p, STy::NamedTy(n)));
    assert(perm_ty_parts(STy::ApplyPerm(q, Box::new(STy::NamedTy(n)))) == (q, STy::NamedTy(n)));
    assert(perm_ty_parts(STy::ApplyPerm(q, Box::new(STy::NamedTy(m)))) == (q, STy::NamedTy(m)));
}

proof fn lemma_applied_all_each(env: SEnv, l: SLivePlaces, pa: SPerm, xs: Seq<SParameter>, pb: SPerm, ys: Seq<SParameter>, fuel: nat)
    requires
        sub_applied_all(env, l, pa, xs, pb, ys, fuel),
    ensures
        xs.len() == ys.len(),
        forall|i: int| 0 <= i < xs.len() ==> #[trigger] sub_rel(env, l, apply_param(pa, xs[i]), apply_param(pb, ys[i]), fuel),
    decreases xs.len(),
{
    if xs.len() > 0 {
        lemma_applied_all_each(env, l, pa, xs.drop_last(), pb, ys.drop_last(), fuel);
        assert forall|i: int| 0 <= i < xs.len() implies #[trigger] sub_rel(env, l, apply_param(pa, xs[i]), apply_param(pb, ys[i]), fuel) by {
            if i < xs.len() - 1 {
                assert(xs.drop_last()[i] == xs[i] && ys.drop_last()[i] == ys[i]);
            }
        }
    }
}

proof fn lemma_generic_all_each(env: SEnv, l: SLivePlaces, vs: Seq<Seq<VarianceKind>>, pa: SPerm, xs: Seq<SParameter>, pb: SPerm, ys: Seq<SParameter>, fuel: nat)
    requires
        sub_generic_all(env, l, vs, pa, xs, pb, ys, fuel),
    ensures
        xs.len() == ys.len(),
        forall|i: int| 0 <= i < xs.len() ==> #[trigger] sub_generic_rule(env, l, vs[i], pa, xs[i], pb, ys[i], fuel),
    decreases xs.len(),
{
    if xs.len() > 0 {
        lemma_generic_all_each(env, l, vs, pa, xs.drop_last(), pb, ys.drop_last(), fuel);
        assert forall|i: int| 0 <= i < xs.len() implies #[trigger] sub_generic_rule(env, l, vs[i], pa, xs[i], pb, ys[i], fuel) by {
            if i < xs.len() - 1 {
                assert(xs.drop_last()[i] == xs[i] && ys.drop_last()[i] == ys[i]);
            }
        }
    }
}

/// Subtyping between two instances of a named type checks every generic
/// argument: the names and the number of arguments agree, and each argument
/// is a subtype in both directions or a subtype once the outer permissions
/// are applied to it. On a type that is not shared (a class not declared
/// shared) the outer permission must also be a subtype.
pub proof fn law_named_subtyping_checks_arguments(env: SEnv, l: SLivePlaces, p: SPerm, n: SNamedTy, q: SPerm, m: SNamedTy, fuel: nat)
    requires
        sub_rel(env, l, SParameter::Ty(STy::ApplyPerm(p, Box::new(STy::NamedTy(n)))), SParameter::Ty(STy::ApplyPerm(q, Box::new(STy::NamedTy(m)))), fuel),
    ensures
        n.name == m.name,
        n.parameters.len() == m.parameters.len(),
        forall|i: int| 0 <= i < n.parameters.len() ==> {
            ||| (sub_rel(env, l, n.parameters[i], m.parameters[i], fuel) && sub_rel(env, l, m.parameters[i], n.parameters[i], fuel))
            ||| #[trigger] sub_rel(env, l, apply_param(p, n.parameters[i]), apply_param(q, m.parameters[i]), fuel)
        },
        (match n.name {
            STypeName::Id(c) => !(class_index(env.program, c) >= 0
                && env.program[class_index(env.program, c)].class_predicate == ClassPredicate::Shared),
            _ => false,
        }) ==> sub_rel(env, l, SParameter::Perm(p), SParameter::Perm(q), fuel),
{
    let a = STy::ApplyPerm(p, Box::new(STy::NamedTy(n)));
    let b = STy::ApplyPerm(q, Box::new(STy::NamedTy(m)));
    assert(perm_ty_parts(a) == (p, STy::NamedTy(n)));
    assert(perm_ty_parts(b) == (q, STy::NamedTy(m)));
    if shared_name(env.program, n.name) == Some(true) && sub_applied_all(env, l, p, n.parameters, q, m.parameters, fuel) {
        lemma_applied_all_each(env, l, p, n.parameters, q, m.parameters, fuel);
    } else {
        let vs = name_variances(env.program, n.name)->0;
        lemma_generic_all_each(env, l, vs, p, n.parameters, q, m.parameters, fuel);
        assert forall|i: int| 0 <= i < n.parameters.len() implies {
            ||| (sub_rel(env, l, n.parameters[i], m.parameters[i], fuel) && sub_rel(env, l, m.parameters[i], n.parameters[i], fuel))
            ||| #[trigger] sub_rel(env, l, apply_param(p, n.parameters[i]), apply_param(q, m.parameters[i]), fuel)
        } by {
            assert(sub_generic_rule(env, l, vs[i], p, n.parameters[i], q, m.parameters[i], fuel));
        }
    }
}

} // verus!
