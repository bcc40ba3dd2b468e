//! Instantiating the generic parameters of a class.
use vstd::prelude::*;

use crate::errors::{STypeError, TypeError};
use crate::grammar::{
    copy_places, lemma_parameters_view, lemma_perms_view, parameters_view, perms_view, BoundVar,
    ClassDecl, FieldDecl, Kind, NamedTy, Parameter, Perm, Predicate, SFieldDecl, SNamedTy, SParameter,
    SPerm, SPredicate, STy, Ty, Variable,
};

verus! {

broadcast use vstd::std_specs::vec::axiom_vec_decreases_to_view;

pub open spec fn parameter_kind(p: SParameter) -> Kind {
    match p {
        SParameter::Ty(_) => Kind::Ty,
        SParameter::Perm(_) => Kind::Perm,
    }
}

/// Instantiating the binder `d` binders out: a variable bound further out
/// refers to one binder less afterwards.
pub open spec fn shift_out(v: Variable, d: usize) -> Variable {
    match v {
        Variable::BoundVar(b) => if b.debruijn > d {
            Variable::BoundVar(BoundVar { debruijn: (b.debruijn - 1) as usize, ..b })
        } else {
            v
        },
        _ => v,
    }
}

/// The parameter that replaces `v`, when `v` is the `i`-th variable of the
/// binder being instantiated, `d` binders out.
pub open spec fn replacement(v: Variable, params: Seq<SParameter>, d: usize) -> Option<SParameter> {
    match v {
        Variable::BoundVar(b) => if b.debruijn == d && b.var_index < params.len() {
            Some(params[b.var_index as int])
        } else {
            None
        },
        _ => None,
    }
}

pub open spec fn subst_perm(p: SPerm, params: Seq<SParameter>, d: usize) -> SPerm
    decreases p,
{
    match p {
        SPerm::Var(v) => match replacement(v, params, d) {
            Some(SParameter::Perm(q)) => q,
            Some(SParameter::Ty(_)) => SPerm::Var(v),
            None => SPerm::Var(shift_out(v, d)),
        },
        SPerm::Apply(l, r) => SPerm::Apply(
            Box::new(subst_perm(*l, params, d)),
            Box::new(subst_perm(*r, params, d)),
        ),
        SPerm::Or(ps) => SPerm::Or(subst_perms(ps, params, d)),
        _ => p,
    }
}

pub open spec fn subst_perms(s: Seq<SPerm>, params: Seq<SParameter>, d: usize) -> Seq<SPerm>
    decreases s,
{
    if s.len() == 0 {
        Seq::empty()
    } else {
        subst_perms(s.subrange(0, s.len() - 1), params, d).push(subst_perm(s[s.len() - 1], params, d))
    }
}

pub open spec fn subst_ty(t: STy, params: Seq<SParameter>, d: usize) -> STy
    decreases t,
{
    match t {
        STy::NamedTy(n) => STy::NamedTy(
            SNamedTy { name: n.name, parameters: subst_parameters(n.parameters, params, d) },
        ),
        STy::Var(v) => match replacement(v, params, d) {
            Some(SParameter::Ty(u)) => u,
            Some(SParameter::Perm(_)) => STy::Var(v),
            None => STy::Var(shift_out(v, d)),
        },
        STy::ApplyPerm(p, inner) => STy::ApplyPerm(
            subst_perm(p, params, d),
            Box::new(subst_ty(*inner, params, d)),
        ),
    }
}

pub open spec fn subst_parameter(p: SParameter, params: Seq<SParameter>, d: usize) -> SParameter
    decreases p,
{
    match p {
        SParameter::Ty(t) => SParameter::Ty(subst_ty(t, params, d)),
        SParameter::Perm(q) => SParameter::Perm(subst_perm(q, params, d)),
    }
}

pub open spec fn subst_parameters(s: Seq<SParameter>, params: Seq<SParameter>, d: usize) -> Seq<SParameter>
    decreases s,
{
    if s.len() == 0 {
        Seq::empty()
    } else {
        subst_parameters(s.subrange(0, s.len() - 1), params, d).push(
            subst_parameter(s[s.len() - 1], params, d),
        )
    }
}

proof fn lemma_subst_perms(s: Seq<SPerm>, params: Seq<SParameter>, d: usize)
    ensures
        subst_perms(s, params, d).len() == s.len(),
        forall|i: int| 0 <= i < s.len() ==> #[trigger] subst_perms(s, params, d)[i] == subst_perm(s[i], params, d),
    decreases s.len(),
{
    if s.len() > 0 {
        lemma_subst_perms(s.subrange(0, s.len() - 1), params, d);
    }
}

proof fn lemma_subst_parameters(s: Seq<SParameter>, params: Seq<SParameter>, d: usize)
    ensures
        subst_parameters(s, params, d).len() == s.len(),
        forall|i: int| 0 <= i < s.len() ==> #[trigger] subst_parameters(s, params, d)[i] == subst_parameter(s[i], params, d),
    decreases s.len(),
{
    if s.len() > 0 {
        lemma_subst_parameters(s.subrange(0, s.len() - 1), params, d);
    }
}

fn shift_out_exec(v: Variable, d: usize) -> (r: Variable)
    ensures
        r == shift_out(v, d),
{
    match v {
        Variable::BoundVar(b) => if b.debruijn > d {
            Variable::BoundVar(BoundVar { debruijn: b.debruijn - 1, var_index: b.var_index, kind: b.kind })
        } else {
            v
        },
        _ => v,
    }
}

fn replacement_exec<'a>(v: Variable, params: &'a Vec<Parameter>, d: usize) -> (r: Option<&'a Parameter>)
    ensures
        match r {
            Some(p) => replacement(v, parameters_view(params@), d) == Some(p@),
            None => replacement(v, parameters_view(params@), d) is None,
        },
{
    proof {
        lemma_parameters_view(params@);
    }
    match v {
        Variable::BoundVar(b) => if b.debruijn == d && b.var_index < params.len() {
            Some(&params[b.var_index])
        } else {
            None
        },
        _ => None,
    }
}

pub fn subst_perm_exec(p: &Perm, params: &Vec<Parameter>, d: usize) -> (r: Perm)
    ensures
        r@ == subst_perm(p@, parameters_view(params@), d),
    decreases p,
{
    match p {
        Perm::Var(v) => match replacement_exec(*v, params, d) {
            Some(Parameter::Perm(q)) => q.copy(),
            Some(Parameter::Ty(_)) => Perm::Var(*v),
            None => Perm::Var(shift_out_exec(*v, d)),
        },
        Perm::Apply(l, r) => Perm::Apply(
            Box::new(subst_perm_exec(l, params, d)),
            Box::new(subst_perm_exec(r, params, d)),
        ),
        Perm::Or(ps) => {
            let mut out: Vec<Perm> = Vec::new();
            let mut i: usize = 0;
            while i < ps.len()
                invariant
                    *p == Perm::Or(*ps),
                    i <= ps@.len(),
                    out@.len() == i,
                    forall|j: int| 0 <= j < i ==> #[trigger] out@[j]@ == subst_perm(ps@[j]@, parameters_view(params@), d),
                decreases ps.len() - i,
            {
                proof {
                    assert(decreases_to!(*p => (*p)->Or_0));
                }
                out.push(subst_perm_exec(&ps[i], params, d));
                i = i + 1;
            }
            proof {
                lemma_perms_view(out@);
                lemma_perms_view(ps@);
                lemma_subst_perms(perms_view(ps@), parameters_view(params@), d);
                assert(perms_view(out@) =~= subst_perms(perms_view(ps@), parameters_view(params@), d));
            }
            Perm::Or(out)
        },
        Perm::Given => Perm::Given,
        Perm::Shared => Perm::Shared,
        Perm::Mv(ps) => Perm::Mv(copy_places(ps)),
        Perm::Rf(ps) => Perm::Rf(copy_places(ps)),
        Perm::Mt(ps) => Perm::Mt(copy_places(ps)),
    }
}

pub fn subst_ty_exec(t: &Ty, params: &Vec<Parameter>, d: usize) -> (r: Ty)
    ensures
        r@ == subst_ty(t@, parameters_view(params@), d),
    decreases t,
{
    match t {
        Ty::NamedTy(n) => {
            proof {
                assert(decreases_to!(*t => (*t)->NamedTy_0));
            }
            Ty::NamedTy(NamedTy { name: n.name.copy(), parameters: subst_parameters_exec(&n.parameters, params, d) })
        },
        Ty::Var(v) => match replacement_exec(*v, params, d) {
            Some(Parameter::Ty(u)) => u.copy(),
            Some(Parameter::Perm(_)) => Ty::Var(*v),
            None => Ty::Var(shift_out_exec(*v, d)),
        },
        Ty::ApplyPerm(p, inner) => Ty::ApplyPerm(
            subst_perm_exec(p, params, d),
            Box::new(subst_ty_exec(inner, params, d)),
        ),
    }
}

pub fn subst_parameter_exec(p: &Parameter, params: &Vec<Parameter>, d: usize) -> (r: Parameter)
    ensures
        r@ == subst_parameter(p@, parameters_view(params@), d),
    decreases p,
{
    match p {
        Parameter::Ty(t) => Parameter::Ty(subst_ty_exec(t, params, d)),
        Parameter::Perm(q) => Parameter::Perm(subst_perm_exec(q, params, d)),
    }
}

pub fn subst_parameters_exec(ps: &Vec<Parameter>, params: &Vec<Parameter>, d: usize) -> (r: Vec<Parameter>)
    ensures
        parameters_view(r@) == subst_parameters(parameters_view(ps@), parameters_view(params@), d),
    decreases ps,
{
    let mut out: Vec<Parameter> = Vec::new();
    let mut i: usize = 0;
    while i < ps.len()
        invariant
            i <= ps@.len(),
            out@.len() == i,
            forall|j: int| 0 <= j < i ==> #[trigger] out@[j]@ == subst_parameter(ps@[j]@, parameters_view(params@), d),
        decreases ps.len() - i,
    {
        proof {
            assert(decreases_to!(ps => ps@));
        }
        out.push(subst_parameter_exec(&ps[i], params, d));
        i = i + 1;
    }
    proof {
        lemma_parameters_view(out@);
        lemma_parameters_view(ps@);
        lemma_subst_parameters(parameters_view(ps@), parameters_view(params@), d);
        assert(parameters_view(out@) =~= subst_parameters(parameters_view(ps@), parameters_view(params@), d));
    }
    out
}

/// The predicate `p` with the binder `d` binders out instantiated.
pub open spec fn subst_predicate(p: SPredicate, params: Seq<SParameter>, d: usize) -> SPredicate {
    match p {
        SPredicate::Parameter(k, x) => SPredicate::Parameter(k, subst_parameter(x, params, d)),
        SPredicate::Variance(k, x) => SPredicate::Variance(k, subst_parameter(x, params, d)),
    }
}

pub fn subst_predicate_exec(p: &Predicate, params: &Vec<Parameter>, d: usize) -> (r: Predicate)
    ensures
        r@ == subst_predicate(p@, parameters_view(params@), d),
{
    match p {
        Predicate::Parameter(k, x) => Predicate::Parameter(*k, subst_parameter_exec(x, params, d)),
        Predicate::Variance(k, x) => Predicate::Variance(*k, subst_parameter_exec(x, params, d)),
    }
}

/// Each predicate of `ps` instantiated.
pub fn subst_predicates_exec(ps: &Vec<Predicate>, params: &Vec<Parameter>, d: usize) -> (r: Vec<Predicate>)
    ensures
        r@.len() == ps@.len(),
        forall|i: int| 0 <= i < ps@.len() ==> #[trigger] r@[i]@ == subst_predicate(ps@[i]@, parameters_view(params@), d),
{
    let mut out: Vec<Predicate> = Vec::new();
    let mut i: usize = 0;
    while i < ps.len()
        invariant
            i <= ps@.len(),
            out@.len() == i,
            forall|j: int| 0 <= j < i ==> #[trigger] out@[j]@ == subst_predicate(ps@[j]@, parameters_view(params@), d),
        decreases ps.len() - i,
    {
        out.push(subst_predicate_exec(&ps[i], params, d));
        i = i + 1;
    }
    out
}

/// Why `params` cannot instantiate a binder of the given kinds, if they cannot:
/// a wrong count, or the first parameter of the wrong kind.
pub open spec fn instantiation_error(kinds: Seq<Kind>, params: Seq<SParameter>) -> Option<STypeError> {
    if params.len() != kinds.len() {
        Some(STypeError::WrongParameterCount)
    } else if exists|i: int| 0 <= i < kinds.len() && parameter_kind(params[i]) != kinds[i] {
        let i = choose|i: int|
            0 <= i < kinds.len() && parameter_kind(params[i]) != kinds[i] && (forall|j: int|
                0 <= j < i ==> parameter_kind(params[j]) == kinds[j]);
        Some(STypeError::WrongParameterKind(i as usize))
    } else {
        None
    }
}

pub open spec fn subst_field(f: SFieldDecl, params: Seq<SParameter>) -> SFieldDecl {
    SFieldDecl { atomic: f.atomic, name: f.name, ty: subst_ty(f.ty, params, 0) }
}

/// Checks that `params` can instantiate a binder of the given kinds.
pub fn check_instantiation(kinds: &Vec<Kind>, params: &Vec<Parameter>) -> (r: Result<(), TypeError>)
    ensures
        match instantiation_error(kinds@, parameters_view(params@)) {
            Some(e) => r matches Err(x) && x@ == e,
            None => r is Ok,
        },
{
    let ghost pv = parameters_view(params@);
    proof {
        lemma_parameters_view(params@);
    }
    if params.len() != kinds.len() {
        return Err(TypeError::WrongParameterCount);
    }
    let mut i: usize = 0;
    while i < kinds.len()
        invariant
            pv == parameters_view(params@),
            pv.len() == params@.len(),
            forall|j: int| 0 <= j < params@.len() ==> #[trigger] pv[j] == params@[j]@,
            params@.len() == kinds@.len(),
            i <= kinds@.len(),
            forall|j: int| 0 <= j < i ==> parameter_kind(pv[j]) == kinds@[j],
        decreases kinds.len() - i,
    {
        let k = match &params[i] {
            Parameter::Ty(_) => Kind::Ty,
            Parameter::Perm(_) => Kind::Perm,
        };
        assert(k == parameter_kind(pv[i as int]));
        if k != kinds[i] {
            proof {
                let w = choose|w: int|
                    0 <= w < kinds@.len() && parameter_kind(pv[w]) != kinds@[w] && (forall|j: int|
                        0 <= j < w ==> parameter_kind(pv[j]) == kinds@[j]);
                assert(0 <= i < kinds@.len() && parameter_kind(pv[i as int]) != kinds@[i as int] && (forall|j: int|
                    0 <= j < i ==> parameter_kind(pv[j]) == kinds@[j]));
                if w < i {
                } else if w > i {
                    assert(parameter_kind(pv[i as int]) == kinds@[i as int]);
                }
            }
            return Err(TypeError::WrongParameterKind(i));
        }
        i = i + 1;
    }
    Ok(())
}

/// The fields of `decl` with its generic parameters replaced by `params`.
pub fn instantiate_fields(decl: &ClassDecl, params: &Vec<Parameter>) -> (r: Result<Vec<FieldDecl>, TypeError>)
    ensures
        match instantiation_error(decl@.kinds, parameters_view(params@)) {
            Some(e) => r matches Err(x) && x@ == e,
            None => r matches Ok(fs) && fs@.map_values(|f: FieldDecl| f@) == decl@.data.fields.map_values(
                |f: SFieldDecl| subst_field(f, parameters_view(params@)),
            ),
        },
{
    match check_instantiation(&decl.binder.kinds, params) {
        Err(e) => Err(e),
        Ok(()) => {
            let fields = &decl.binder.term.fields;
            let mut out: Vec<FieldDecl> = Vec::new();
            let mut i: usize = 0;
            while i < fields.len()
                invariant
                    i <= fields@.len(),
                    out@.len() == i,
                    forall|j: int| 0 <= j < i ==> #[trigger] out@[j]@ == subst_field(fields@[j]@, parameters_view(params@)),
                decreases fields.len() - i,
            {
                let f = &fields[i];
                out.push(FieldDecl { atomic: f.atomic, name: f.name.copy(), ty: subst_ty_exec(&f.ty, params, 0) });
                i = i + 1;
            }
            assert(out@.map_values(|f: FieldDecl| f@) =~= decl@.data.fields.map_values(
                |f: SFieldDecl| subst_field(f, parameters_view(params@)),
            ));
            Ok(out)
        },
    }
}

} // verus!
