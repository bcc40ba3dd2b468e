//! Checking method declarations: generics, predicates, the types of
//! `self`, of the inputs and of the output, and the body.
use vstd::prelude::*;

use crate::binder::{subst_parameter, subst_perm, subst_perm_exec, subst_predicate, subst_predicates_exec, subst_ty, subst_ty_exec};
use crate::env::{predicates_set, var_parameter, Env, SEnv};
use crate::errors::{STypeError, TypeError};
use crate::grammar::{
    lemma_statements_view, statements_view, Expr, SExpr, Kind, LocalVariableDecl, MethodBody, MethodDecl, NamedTy, Parameter, Perm,
    Predicate, SBlock, SLocalVariableDecl, SMethodBody, SMethodDecl, SNamedTy, SParameter, SPerm, SPredicate, STy,
    STypeName, SVar, Ty, TypeName, UniversalVar, Var, Variable, VarianceKind,
};
use crate::expressions::{can_type_expr_as, expr_as_typing, STyping};
use crate::liveness::{no_places, LivePlaces};
use crate::predicates::{check_predicates, pred_param, predicate_parameter_ok};
use crate::types::{check_type, ty_ok};

verus! {

/// The universal variables created for a binder of the given kinds when
/// `universe` variables exist already.
pub open spec fn universal_vars(universe: usize, kinds: Seq<Kind>) -> Seq<UniversalVar> {
    Seq::new(kinds.len(), |i: int| UniversalVar { kind: kinds[i], var_index: (universe + i) as usize })
}

/// The variables as generic arguments.
pub open spec fn var_params(vars: Seq<UniversalVar>) -> Seq<SParameter> {
    vars.map_values(|v: UniversalVar| var_parameter(v))
}

/// The environment with `vars` opened.
pub open spec fn opened_env(env: SEnv, vars: Seq<UniversalVar>) -> SEnv {
    SEnv {
        universe: (env.universe + vars.len()) as usize,
        in_scope_vars: env.in_scope_vars + vars.map_values(|u: UniversalVar| Variable::UniversalVar(u)),
        ..env
    }
}

/// Every variable of `vars` assumed relative and atomic.
pub open spec fn variance_assumptions(vars: Seq<UniversalVar>) -> Set<SPredicate> {
    Set::new(|p: SPredicate| exists|i: int| 0 <= i < vars.len() && (p == SPredicate::Variance(
        VarianceKind::Relative,
        var_parameter(#[trigger] vars[i]),
    ) || p == SPredicate::Variance(VarianceKind::Atomic, var_parameter(vars[i]))))
}

/// The locals after introducing each input in order; `None` if one would
/// shadow a variable already there.
pub open spec fn push_inputs(m: Map<SVar, STy>, inputs: Seq<SLocalVariableDecl>) -> Option<Map<SVar, STy>>
    decreases inputs.len(),
{
    if inputs.len() == 0 {
        Some(m)
    } else {
        match push_inputs(m, inputs.drop_last()) {
            None => None,
            Some(m2) => if m2.dom().contains(SVar::Id(inputs.last().name)) {
                None
            } else {
                Some(m2.insert(SVar::Id(inputs.last().name), inputs.last().ty))
            },
        }
    }
}

/// The unit type `()`.
pub open spec fn unit_ty() -> STy {
    STy::NamedTy(SNamedTy { name: STypeName::Tuple(0), parameters: Seq::empty() })
}

/// The error checking a method body gives, if any: a trusted body is
/// accepted; a block must type as a value of the output, with nothing live
/// after it.
pub open spec fn body_error(env: SEnv, output: STy, body: SMethodBody, fuel: nat) -> Option<STypeError> {
    match body {
        SMethodBody::Trusted => None,
        SMethodBody::Block(b) => match expr_as_typing(env, no_places(), SExpr::Block(b), output, fuel) {
            STyping::Typed(_, _) => None,
            STyping::Fails => Some(STypeError::IllTypedBody),
            STyping::Unsupported => Some(STypeError::UnsupportedBody),
        },
    }
}

/// An input with its type instantiated.
pub open spec fn subst_input(d: SLocalVariableDecl, params: Seq<SParameter>) -> SLocalVariableDecl {
    SLocalVariableDecl { name: d.name, ty: subst_ty(d.ty, params, 0) }
}

/// True if the method declaration is well formed for a class of type
/// `class_ty` in `env`: its predicates constrain its generics, no input
/// shadows another variable, and the types of the inputs and of the output
/// are well formed once `self` and the inputs are in scope.
pub open spec fn method_ok(class_ty: SNamedTy, env: SEnv, m: SMethodDecl, fuel: nat) -> bool {
    let vars = universal_vars(env.universe, m.kinds);
    let params = var_params(vars);
    let e1 = SEnv { assumptions: opened_env(env, vars).assumptions + variance_assumptions(vars), ..opened_env(env, vars) };
    let preds = m.data.predicates.map_values(|p: SPredicate| subst_predicate(p, params, 0));
    let e2 = SEnv { assumptions: e1.assumptions + preds.to_set(), ..e1 };
    let this_ty = STy::ApplyPerm(subst_perm(m.data.this, params, 0), Box::new(STy::NamedTy(class_ty)));
    let inputs = m.data.inputs.map_values(|d: SLocalVariableDecl| subst_input(d, params));
    let output = subst_ty(m.data.output, params, 0);
    &&& forall|i: int| 0 <= i < preds.len() ==> predicate_parameter_ok(e1, pred_param(#[trigger] preds[i]))
    &&& !e2.local_variables.dom().contains(SVar::This)
    &&& push_inputs(e2.local_variables.insert(SVar::This, this_ty), inputs) matches Some(m3) && {
        let e3 = SEnv { local_variables: m3, ..e2 };
        &&& forall|i: int| 0 <= i < inputs.len() ==> ty_ok(e3, #[trigger] inputs[i].ty)
        &&& ty_ok(e3, output)
        &&& body_error(e3, output, m.data.body, fuel) is None
    }
}

/// The universal variable `v` as a parameter of its own kind.
pub fn var_param(v: UniversalVar) -> (r: Parameter)
    ensures
        r@ == var_parameter(v),
{
    match v.kind {
        Kind::Ty => Parameter::Ty(Ty::Var(Variable::UniversalVar(v))),
        Kind::Perm => Parameter::Perm(Perm::Var(Variable::UniversalVar(v))),
    }
}

fn var_params_exec(vars: &Vec<UniversalVar>) -> (r: Vec<Parameter>)
    ensures
        crate::grammar::parameters_view(r@) == var_params(vars@),
{
    let mut out: Vec<Parameter> = Vec::new();
    let mut i: usize = 0;
    while i < vars.len()
        invariant
            i <= vars@.len(),
            out@.len() == i,
            forall|j: int| 0 <= j < i ==> #[trigger] out@[j]@ == var_parameter(vars@[j]),
        decreases vars.len() - i,
    {
        out.push(var_param(vars[i]));
        i = i + 1;
    }
    proof {
        crate::grammar::lemma_parameters_view(out@);
        assert(crate::grammar::parameters_view(out@) =~= var_params(vars@));
    }
    out
}

fn variance_assumptions_exec(vars: &Vec<UniversalVar>) -> (r: Vec<Predicate>)
    ensures
        predicates_set(r@) == variance_assumptions(vars@),
{
    let mut out: Vec<Predicate> = Vec::new();
    let mut i: usize = 0;
    while i < vars.len()
        invariant
            i <= vars@.len(),
            out@.len() == 2 * i,
            forall|j: int| 0 <= j < i ==> #[trigger] out@[2 * j]@ == SPredicate::Variance(VarianceKind::Relative, var_parameter(vars@[j]))
                && out@[2 * j + 1]@ == SPredicate::Variance(VarianceKind::Atomic, var_parameter(vars@[j])),
        decreases vars.len() - i,
    {
        out.push(Predicate::Variance(VarianceKind::Relative, var_param(vars[i])));
        out.push(Predicate::Variance(VarianceKind::Atomic, var_param(vars[i])));
        i = i + 1;
    }
    proof {
        let ov = out@.map_values(|q: Predicate| q@);
        assert forall|p: SPredicate| ov.to_set().contains(p) <==> variance_assumptions(vars@).contains(p) by {
            if ov.contains(p) {
                let m = choose|m: int| 0 <= m < ov.len() && ov[m] == p;
                let j = m / 2;
                assert(out@[2 * j]@ == SPredicate::Variance(VarianceKind::Relative, var_parameter(vars@[j])));
                if m % 2 == 0 {
                    assert(m == 2 * j);
                } else {
                    assert(m == 2 * j + 1);
                }
            }
            if variance_assumptions(vars@).contains(p) {
                let j = choose|j: int| 0 <= j < vars@.len() && (p == SPredicate::Variance(
                    VarianceKind::Relative,
                    var_parameter(#[trigger] vars@[j]),
                ) || p == SPredicate::Variance(VarianceKind::Atomic, var_parameter(vars@[j])));
                assert(out@[2 * j]@ == SPredicate::Variance(VarianceKind::Relative, var_parameter(vars@[j])));
                if p == SPredicate::Variance(VarianceKind::Relative, var_parameter(vars@[j])) {
                    assert(ov[2 * j] == p);
                } else {
                    assert(ov[2 * j + 1] == p);
                }
            }
        }
        assert(ov.to_set() =~= variance_assumptions(vars@));
    }
    out
}

/// Checks a method body in `env` (see [`body_error`]): a body that does not
/// type as the output gives [`TypeError::IllTypedBody`], one that uses
/// what the typing rules do not cover gives [`TypeError::UnsupportedBody`].
pub fn check_body(env: &Env, output: &Ty, body: &MethodBody, fuel: usize) -> (r: Result<(), TypeError>)
    ensures
        r is Ok <==> body_error(env@, output@, body@, fuel as nat) is None,
        r matches Err(e) ==> body_error(env@, output@, body@, fuel as nat) == Some(e@),
{
    match body {
        MethodBody::Trusted => Ok(()),
        MethodBody::Block(b) => {
            let e = Expr::Block(b.copy());
            match can_type_expr_as(env, &LivePlaces::new(), &e, output, fuel) {
                Some(true) => Ok(()),
                Some(false) => Err(TypeError::IllTypedBody),
                None => Err(TypeError::UnsupportedBody),
            }
        },
    }
}

/// Checks a method of a class whose type is `class_ty` (see [`method_ok`]).
#[verifier::loop_isolation(false)]
pub fn check_method(class_ty: &NamedTy, env: &Env, decl: &MethodDecl, fuel: usize) -> (r: Result<(), TypeError>)
    requires
        env@.universe + decl@.kinds.len() <= usize::MAX,
    ensures
        r is Ok <==> method_ok(class_ty@, env@, decl@, fuel as nat),
{
    let ghost m = decl@;
    let ghost svars = universal_vars(env@.universe, m.kinds);
    let ghost spv = var_params(svars);
    let ghost se1 = SEnv { assumptions: opened_env(env@, svars).assumptions + variance_assumptions(svars), ..opened_env(env@, svars) };
    let ghost spreds = m.data.predicates.map_values(|p: SPredicate| subst_predicate(p, spv, 0));
    let ghost se2 = SEnv { assumptions: se1.assumptions + spreds.to_set(), ..se1 };
    let ghost sthis = STy::ApplyPerm(subst_perm(m.data.this, spv, 0), Box::new(STy::NamedTy(class_ty@)));
    let ghost soutput = subst_ty(m.data.output, spv, 0);
    let mut menv = env.copy();
    let vars = menv.open_universal_vars(&decl.binder.kinds);
    assert(vars@ =~= svars);
    let params = var_params_exec(&vars);
    let ghost pv = var_params(vars@);
    menv.add_assumptions(variance_assumptions_exec(&vars));
    let ghost e1 = menv@;
    assert(e1 == se1);
    let data = &decl.binder.term;
    let preds = subst_predicates_exec(&data.predicates, &params, 0);
    assert(preds@.map_values(|p: Predicate| p@) =~= m.data.predicates.map_values(|p: SPredicate| subst_predicate(p, pv, 0)));
    match check_predicates(&menv, &preds) {
        Ok(()) => {},
        Err(e) => {
            proof {
                let sp = m.data.predicates.map_values(|p: SPredicate| subst_predicate(p, pv, 0));
                let i = choose|i: int| 0 <= i < preds@.len() && !predicate_parameter_ok(e1, pred_param(#[trigger] preds@[i]@));
                assert(sp[i] == preds@[i]@);
            }
            return Err(e);
        },
    }
    assert(forall|i: int| 0 <= i < spreds.len() ==> predicate_parameter_ok(se1, pred_param(#[trigger] spreds[i]))) by {
        assert forall|i: int| 0 <= i < spreds.len() implies predicate_parameter_ok(se1, pred_param(#[trigger] spreds[i])) by {
            assert(spreds[i] == preds@[i]@);
        }
    }
    let ghost pset = predicates_set(preds@);
    menv.add_assumptions(preds);
    let ghost e2 = menv@;
    assert(pset == spreds.to_set());
    assert(e2 == se2);
    let this_perm = subst_perm_exec(&data.this.perm, &params, 0);
    assert(pv == spv);
    assert(m.data.this == data.this.perm@);
    assert(this_perm@ == subst_perm(m.data.this, spv, 0));
    let class_named = Ty::NamedTy(class_ty.copy());
    assert(class_named@ == STy::NamedTy(class_ty@));
    let this_ty = Ty::ApplyPerm(this_perm, Box::new(class_named));
    assert(this_ty@ == sthis);
    match menv.push_local_variable(Var::This, this_ty) {
        Ok(()) => {},
        Err(e) => return Err(e),
    }
    assert(menv@.local_variables == se2.local_variables.insert(SVar::This, sthis));
    let mut inputs: Vec<LocalVariableDecl> = Vec::new();
    let ghost sinputs = m.data.inputs.map_values(|d: SLocalVariableDecl| subst_input(d, pv));
    let ghost start = menv@.local_variables;
    let mut i: usize = 0;
    proof {
        assert(sinputs.subrange(0, 0) =~= Seq::<SLocalVariableDecl>::empty());
    }
    while i < data.inputs.len()
        invariant
            i <= data.inputs@.len(),
            sinputs.len() == data.inputs@.len(),
            sinputs == m.data.inputs.map_values(|d: SLocalVariableDecl| subst_input(d, pv)),
            m.data.inputs == data.inputs@.map_values(|d: LocalVariableDecl| d@),
            pv == crate::grammar::parameters_view(params@),
            inputs@.len() == i,
            forall|j: int| 0 <= j < i ==> #[trigger] inputs@[j]@ == sinputs[j],
            push_inputs(start, sinputs.subrange(0, i as int)) == Some(menv@.local_variables),
            menv@ == (SEnv { local_variables: menv@.local_variables, ..e2 }),
        decreases data.inputs.len() - i,
    {
        let d = &data.inputs[i];
        let di = LocalVariableDecl { name: d.name.copy(), ty: subst_ty_exec(&d.ty, &params, 0) };
        assert(di@ == sinputs[i as int]);
        let ghost before = menv@.local_variables;
        let ghost sub = sinputs.subrange(0, i + 1);
        assert(sub.drop_last() =~= sinputs.subrange(0, i as int));
        assert(sub.last() == sinputs[i as int]);
        match menv.push_local_variable_decl(&di) {
            Ok(()) => {},
            Err(e) => {
                proof {
                    assert(push_inputs(start, sub) is None);
                    lemma_push_inputs_none(start, sinputs, i + 1);
                    assert(sinputs.subrange(0, sinputs.len() as int) =~= sinputs);
                }
                return Err(e);
            },
        }
        inputs.push(di);
        i = i + 1;
    }
    proof {
        assert(sinputs.subrange(0, sinputs.len() as int) =~= sinputs);
    }
    let ghost e3 = menv@;
    let mut j: usize = 0;
    while j < inputs.len()
        invariant
            e3 == menv@,
            j <= inputs@.len(),
            inputs@.len() == sinputs.len(),
            forall|k: int| 0 <= k < inputs@.len() ==> #[trigger] inputs@[k]@ == sinputs[k],
            forall|k: int| 0 <= k < j ==> ty_ok(e3, #[trigger] sinputs[k].ty),
        decreases inputs.len() - j,
    {
        assert(inputs@[j as int]@ == sinputs[j as int]);
        match check_type(&menv, &inputs[j].ty) {
            Ok(()) => {},
            Err(e) => {
                assert(!ty_ok(e3, sinputs[j as int].ty));
                return Err(e);
            },
        }
        j = j + 1;
    }
    assert(e3 == (SEnv { local_variables: e3.local_variables, ..se2 }));
    let output = subst_ty_exec(&data.output, &params, 0);
    assert(output@ == soutput);
    match check_type(&menv, &output) {
        Ok(()) => {},
        Err(e) => return Err(e),
    }
    check_body(&menv, &output, &data.body, fuel)
}

/// Once introducing the inputs up to some point fails, introducing all of
/// them fails.
proof fn lemma_push_inputs_none(m: Map<SVar, STy>, s: Seq<SLocalVariableDecl>, n: int)
    requires
        0 <= n <= s.len(),
        push_inputs(m, s.subrange(0, n)) is None,
    ensures
        push_inputs(m, s) is None,
    decreases s.len() - n,
{
    if n < s.len() {
        let t = s.subrange(0, n + 1);
        assert(t.drop_last() =~= s.subrange(0, n));
        lemma_push_inputs_none(m, s, n + 1);
    } else {
        assert(s.subrange(0, n) =~= s);
    }
}

/// A method that passes the check has a body that types: a block body can
/// be typed, with `self` in scope and nothing live afterwards, as a value of
/// the method's declared output (its generics opened).
pub proof fn law_checked_method_bodies_type(class_ty: SNamedTy, env: SEnv, m: SMethodDecl, b: SBlock, fuel: nat)
    requires
        method_ok(class_ty, env, m, fuel),
        m.data.body == SMethodBody::Block(b),
    ensures
        exists|e: SEnv| #![trigger e.local_variables] e.local_variables.dom().contains(SVar::This)
            && expr_as_typing(e, no_places(), SExpr::Block(b), subst_ty(m.data.output, var_params(universal_vars(env.universe, m.kinds)), 0), fuel) is Typed,
{
    let vars = universal_vars(env.universe, m.kinds);
    let params = var_params(vars);
    let e1 = SEnv { assumptions: opened_env(env, vars).assumptions + variance_assumptions(vars), ..opened_env(env, vars) };
    let preds = m.data.predicates.map_values(|p: SPredicate| subst_predicate(p, params, 0));
    let e2 = SEnv { assumptions: e1.assumptions + preds.to_set(), ..e1 };
    let this_ty = STy::ApplyPerm(subst_perm(m.data.this, params, 0), Box::new(STy::NamedTy(class_ty)));
    let inputs = m.data.inputs.map_values(|d: SLocalVariableDecl| subst_input(d, params));
    let m3 = push_inputs(e2.local_variables.insert(SVar::This, this_ty), inputs)->Some_0;
    let e3 = SEnv { local_variables: m3, ..e2 };
    lemma_push_inputs_keeps(e2.local_variables.insert(SVar::This, this_ty), inputs, SVar::This);
    assert(e3.local_variables.dom().contains(SVar::This));
}

/// Introducing inputs never removes a variable already there.
proof fn lemma_push_inputs_keeps(m: Map<SVar, STy>, s: Seq<SLocalVariableDecl>, v: SVar)
    requires
        m.dom().contains(v),
    ensures
        push_inputs(m, s) matches Some(m2) ==> m2.dom().contains(v),
    decreases s.len(),
{
    if s.len() > 0 {
        lemma_push_inputs_keeps(m, s.drop_last(), v);
    }
}

} // verus!
