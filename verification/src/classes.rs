//! Facts about class declarations.
use vstd::prelude::*;

use crate::env::{var_parameter, Env, SEnv};
use crate::errors::{STypeError, TypeError};
use crate::grammar::{
    Atomic, BoundVar, ClassDecl, ClassPredicate, FieldDecl, Kind, NamedTy, Parameter,
    ParameterPredicate, Perm, Predicate, SFieldDecl, SNamedTy, SParameter, SPerm, SPredicate, STy,
    SVar, Ty, UniversalVar, Var, Variable, VarianceKind,
};
use crate::predicates::{pp, prove_predicate, provable};
use crate::types::{check_type, ty_err, ty_ok};
use crate::binder::{subst_parameter, subst_perm, subst_perm_exec, subst_predicate, subst_predicates_exec, subst_ty, subst_ty_exec};
use crate::expressions::{can_type_expr_as, expr_as_typing, unit_ty_exec, STyping};
use crate::liveness::{no_places, LivePlaces};
use crate::methods::{check_method, method_ok, unit_ty, universal_vars, var_params};
use crate::predicates::{check_predicates, pred_param, predicate_parameter_ok};
use crate::grammar::{
    parameters_view, Binder, Block, DropBody, LocalVariableDecl, MethodBody, MethodDecl, MethodDeclBoundData,
    Expr, SExpr, Program, SBlock, SClassDecl, SLocalVariableDecl, SMethodDecl, SMethodDeclBoundData, STypeName, ThisDecl, TypeName,
};

verus! {

/// `p` is the variable `v` itself (as a type or as a permission).
pub open spec fn parameter_is_var(p: SParameter, v: Variable) -> bool {
    p == SParameter::Ty(STy::Var(v)) || p == SParameter::Perm(SPerm::Var(v))
}

/// The variance kinds that `preds` declare for the variable `v`, in order.
pub open spec fn variances_for(preds: Seq<SPredicate>, v: Variable) -> Seq<VarianceKind>
    decreases preds.len(),
{
    if preds.len() == 0 {
        Seq::empty()
    } else {
        let rest = variances_for(preds.drop_last(), v);
        let last = preds.last();
        if last is Variance && parameter_is_var(last->Variance_1, v) {
            rest.push(last->Variance_0)
        } else {
            rest
        }
    }
}

/// The `i`-th variable of the class binder, as seen from the class's predicates.
pub open spec fn class_var(i: int, kind: crate::grammar::Kind) -> Variable {
    Variable::BoundVar(BoundVar { debruijn: 0, var_index: i as usize, kind })
}

fn is_var(p: &Parameter, v: Variable) -> (r: bool)
    ensures
        r == parameter_is_var(p@, v),
{
    match p {
        Parameter::Ty(Ty::Var(x)) => *x == v,
        Parameter::Perm(Perm::Var(x)) => *x == v,
        _ => false,
    }
}

impl ClassDecl {
    /// For each generic parameter of the class, the variances its
    /// predicates declare for that parameter.
    pub fn variances(&self) -> (r: Vec<Vec<VarianceKind>>)
        ensures
            r@.len() == self@.kinds.len(),
            forall|i: int| 0 <= i < r@.len() ==> #[trigger] r@[i]@ == variances_for(
                self@.data.predicates,
                class_var(i, self@.kinds[i]),
            ),
    {
        let kinds = &self.binder.kinds;
        let preds = &self.binder.term.predicates;
        let ghost pv = self@.data.predicates;
        let mut r: Vec<Vec<VarianceKind>> = Vec::new();
        let mut i: usize = 0;
        while i < kinds.len()
            invariant
                pv == preds@.map_values(|p: Predicate| p@),
                pv == self@.data.predicates,
                kinds@ == self@.kinds,
                i <= kinds@.len(),
                r@.len() == i,
                forall|k: int| 0 <= k < i ==> #[trigger] r@[k]@ == variances_for(pv, class_var(k, kinds@[k])),
            decreases kinds.len() - i,
        {
            let v = Variable::BoundVar(BoundVar { debruijn: 0, var_index: i, kind: kinds[i] });
            let mut ks: Vec<VarianceKind> = Vec::new();
            let mut j: usize = 0;
            while j < preds.len()
                invariant
                    pv == preds@.map_values(|p: Predicate| p@),
                    j <= preds@.len(),
                    ks@ == variances_for(pv.subrange(0, j as int), v),
                decreases preds.len() - j,
            {
                proof {
                    let sub = pv.subrange(0, j + 1);
                    assert(sub.drop_last() =~= pv.subrange(0, j as int));
                    assert(sub.last() == preds@[j as int]@);
                }
                match &preds[j] {
                    Predicate::Variance(kind, p) => {
                        if is_var(p, v) {
                            ks.push(*kind);
                        }
                    },
                    _ => {},
                }
                j = j + 1;
            }
            proof {
                assert(pv.subrange(0, j as int) =~= pv);
            }
            r.push(ks);
            i = i + 1;
        }
        r
    }
}


/// The predicate every field type of a class must meet, given that the
/// class's type parameters meet it: none for a given class, `share` for a
/// share class, `shared` for a shared class.
pub open spec fn class_parameter_predicate(cp: ClassPredicate) -> Option<ParameterPredicate> {
    match cp {
        ClassPredicate::Given => None,
        ClassPredicate::Share => Some(ParameterPredicate::Share),
        ClassPredicate::Shared => Some(ParameterPredicate::Shared),
    }
}

fn class_parameter_predicate_exec(cp: ClassPredicate) -> (r: Option<ParameterPredicate>)
    ensures
        r == class_parameter_predicate(cp),
{
    match cp {
        ClassPredicate::Given => None,
        ClassPredicate::Share => Some(ParameterPredicate::Share),
        ClassPredicate::Shared => Some(ParameterPredicate::Shared),
    }
}

/// The environment in which a field is checked: `self` has the class type.
pub open spec fn field_env(env: SEnv, class_ty: SNamedTy) -> SEnv {
    SEnv { local_variables: env.local_variables.insert(SVar::This, STy::NamedTy(class_ty)), ..env }
}

/// `k` assumed of every type parameter among `vars`.
pub open spec fn type_params_meet(k: ParameterPredicate, vars: Seq<UniversalVar>) -> Set<SPredicate> {
    Set::new(|p: SPredicate| exists|i: int| 0 <= i < vars.len() && vars[i].kind == Kind::Ty
        && p == SPredicate::Parameter(k, var_parameter(#[trigger] vars[i])))
}

/// The field environment with the class predicate assumed of the type
/// parameters.
pub open spec fn field_proof_env(env: SEnv, class_ty: SNamedTy, vars: Seq<UniversalVar>, cp: ClassPredicate) -> SEnv {
    let e = field_env(env, class_ty);
    match class_parameter_predicate(cp) {
        Some(k) => SEnv { assumptions: e.assumptions + type_params_meet(k, vars), ..e },
        None => e,
    }
}

/// The obligations a field meets once its type is well formed: the class
/// predicate, and the atomic variance for an atomic field.
pub open spec fn field_obligations(env: SEnv, class_ty: SNamedTy, vars: Seq<UniversalVar>, cp: ClassPredicate, f: SFieldDecl, fuel: nat) -> bool {
    let e = field_proof_env(env, class_ty, vars, cp);
    &&& (class_parameter_predicate(cp) matches Some(k) ==> provable(e, pp(k, SParameter::Ty(f.ty)), fuel))
    &&& (f.atomic == Atomic::Yes ==> provable(e, SPredicate::Variance(VarianceKind::Atomic, SParameter::Ty(f.ty)), fuel))
}

/// The assumptions `k(v)` for each type parameter `v` of `vars`.
fn type_param_assumptions(k: ParameterPredicate, vars: &Vec<UniversalVar>) -> (r: Vec<Predicate>)
    ensures
        crate::env::predicates_set(r@) == type_params_meet(k, vars@),
{
    let mut out: Vec<Predicate> = Vec::new();
    let mut i: usize = 0;
    while i < vars.len()
        invariant
            i <= vars@.len(),
            forall|p: SPredicate| #[trigger] crate::env::predicates_set(out@).contains(p) <==> (exists|j: int| 0 <= j < i && vars@[j].kind == Kind::Ty
                && p == SPredicate::Parameter(k, var_parameter(#[trigger] vars@[j]))),
        decreases vars.len() - i,
    {
        let v = vars[i];
        let ghost before = out@.map_values(|q: Predicate| q@);
        assert(crate::env::predicates_set(out@) == before.to_set());
        if v.kind == Kind::Ty {
            let pred = Predicate::Parameter(k, Parameter::Ty(Ty::Var(Variable::UniversalVar(v))));
            assert(pred@ == SPredicate::Parameter(k, var_parameter(v)));
            out.push(pred);
        }
        proof {
            let after = out@.map_values(|q: Predicate| q@);
            assert(crate::env::predicates_set(out@) == after.to_set());
            if v.kind == Kind::Ty {
                assert(after =~= before.push(SPredicate::Parameter(k, var_parameter(v))));
            } else {
                assert(after =~= before);
            }
            assert forall|p: SPredicate| crate::env::predicates_set(out@).contains(p) <==> (exists|j: int| 0 <= j < i + 1 && vars@[j].kind == Kind::Ty
                && p == SPredicate::Parameter(k, var_parameter(#[trigger] vars@[j]))) by {
                if after.contains(p) {
                    let m = choose|m: int| 0 <= m < after.len() && after[m] == p;
                    if m < before.len() {
                        assert(before[m] == p);
                        assert(before.contains(p));
                        assert(before.to_set().contains(p));
                    } else {
                        assert(vars@[i as int].kind == Kind::Ty && p == SPredicate::Parameter(k, var_parameter(vars@[i as int])));
                    }
                }
                if exists|j: int| 0 <= j < i + 1 && vars@[j].kind == Kind::Ty && p == SPredicate::Parameter(k, var_parameter(#[trigger] vars@[j])) {
                    let j = choose|j: int| 0 <= j < i + 1 && vars@[j].kind == Kind::Ty && p == SPredicate::Parameter(k, var_parameter(#[trigger] vars@[j]));
                    if j < i {
                        assert(before.to_set().contains(p));
                        assert(before.contains(p));
                        let m = choose|m: int| 0 <= m < before.len() && before[m] == p;
                        assert(after[m] == p);
                    } else {
                        assert(after[after.len() - 1] == p);
                    }
                }
            }
        }
        i = i + 1;
    }
    proof {
        assert(crate::env::predicates_set(out@) =~= type_params_meet(k, vars@));
    }
    out
}

/// Checks a field of a class: its type is well formed with `self` of the
/// class type, meets the class predicate (assuming the type parameters
/// do), and is atomic-variant when the field is atomic.
pub fn check_field(class_ty: &NamedTy, env: &Env, class_substitution: &Vec<UniversalVar>, class_predicate: ClassPredicate, decl: &FieldDecl, fuel: usize) -> (r: Result<(), TypeError>)
    ensures
        env@.local_variables.dom().contains(SVar::This) ==> (r matches Err(e) && e@ == STypeError::ShadowedVariable(SVar::This)),
        !env@.local_variables.dom().contains(SVar::This) ==> {
            let e1 = field_env(env@, class_ty@);
            &&& (r is Ok <==> (ty_ok(e1, decl@.ty) && field_obligations(env@, class_ty@, class_substitution@, class_predicate, decl@, fuel as nat)))
            &&& (!ty_ok(e1, decl@.ty) ==> (r matches Err(e) && ty_err(e1, decl@.ty, e@)))
            &&& (ty_ok(e1, decl@.ty) && r is Err ==> (r matches Err(e) && e@ == STypeError::PredicateNotProven))
        },
{
    let mut fenv = env.copy();
    match fenv.push_local_variable(Var::This, Ty::NamedTy(class_ty.copy())) {
        Ok(()) => {},
        Err(e) => return Err(e),
    }
    assert(fenv@ == field_env(env@, class_ty@));
    match check_type(&fenv, &decl.ty) {
        Ok(()) => {},
        Err(e) => return Err(e),
    }
    match class_parameter_predicate_exec(class_predicate) {
        Some(k) => {
            fenv.add_assumptions(type_param_assumptions(k, class_substitution));
            assert(fenv@ == field_proof_env(env@, class_ty@, class_substitution@, class_predicate));
            if !prove_predicate(&fenv, &Predicate::Parameter(k, Parameter::Ty(decl.ty.copy())), fuel) {
                return Err(TypeError::PredicateNotProven);
            }
        },
        None => {},
    }
    assert(fenv@ == field_proof_env(env@, class_ty@, class_substitution@, class_predicate));
    match decl.atomic {
        Atomic::No => Ok(()),
        Atomic::Yes => {
            if prove_predicate(&fenv, &Predicate::Variance(VarianceKind::Atomic, Parameter::Ty(decl.ty.copy())), fuel) {
                Ok(())
            } else {
                Err(TypeError::PredicateNotProven)
            }
        },
    }
}


/// The method with the class's generics (one binder out) instantiated in
/// its signature.
pub open spec fn inst_method(m: SMethodDecl, params: Seq<SParameter>) -> SMethodDecl {
    SMethodDecl {
        name: m.name,
        kinds: m.kinds,
        data: SMethodDeclBoundData {
            this: subst_perm(m.data.this, params, 1),
            inputs: m.data.inputs.map_values(|d: SLocalVariableDecl| SLocalVariableDecl { name: d.name, ty: subst_ty(d.ty, params, 1) }),
            output: subst_ty(m.data.output, params, 1),
            predicates: m.data.predicates.map_values(|p: SPredicate| subst_predicate(p, params, 1)),
            body: m.data.body,
        },
    }
}

/// The generics of the class as universal variables.
pub open spec fn class_vars(decl: SClassDecl) -> Seq<UniversalVar> {
    universal_vars(0, decl.kinds)
}

/// The class's own type, applied to its generics.
pub open spec fn class_named_ty(decl: SClassDecl) -> SNamedTy {
    SNamedTy { name: STypeName::Id(decl.name), parameters: var_params(class_vars(decl)) }
}

/// The class's predicates with its generics instantiated.
pub open spec fn class_preds(decl: SClassDecl) -> Seq<SPredicate> {
    decl.data.predicates.map_values(|p: SPredicate| subst_predicate(p, var_params(class_vars(decl)), 0))
}

/// The environment in which the members of a class are checked: its
/// generics in scope and its predicates assumed.
pub open spec fn class_env(program: Seq<SClassDecl>, decl: SClassDecl) -> SEnv {
    SEnv {
        program,
        universe: decl.kinds.len() as usize,
        in_scope_vars: class_vars(decl).map_values(|u: UniversalVar| Variable::UniversalVar(u)),
        local_variables: Map::empty(),
        assumptions: class_preds(decl).to_set(),
        fresh: 0,
    }
}

/// A field with the class's generics instantiated.
pub open spec fn inst_field(f: SFieldDecl, params: Seq<SParameter>) -> SFieldDecl {
    SFieldDecl { atomic: f.atomic, name: f.name, ty: subst_ty(f.ty, params, 0) }
}

/// True if the class declaration is well formed: its predicates constrain
/// its generics, each field is well formed and meets the class predicate,
/// each method is well formed, and the drop body is well typed.
pub open spec fn class_ok(program: Seq<SClassDecl>, decl: SClassDecl, fuel: nat) -> bool {
    let env = class_env(program, decl);
    let params = var_params(class_vars(decl));
    let cty = class_named_ty(decl);
    &&& forall|i: int| 0 <= i < class_preds(decl).len() ==> predicate_parameter_ok(env, pred_param(#[trigger] class_preds(decl)[i]))
    &&& forall|i: int| 0 <= i < decl.data.fields.len() ==> {
        let f = inst_field(#[trigger] decl.data.fields[i], params);
        ty_ok(field_env(env, cty), f.ty) && field_obligations(env, cty, class_vars(decl), decl.class_predicate, f, fuel)
    }
    &&& forall|i: int| 0 <= i < decl.data.methods.len() ==> method_ok(cty, env, inst_method(#[trigger] decl.data.methods[i], params), fuel)
    &&& drop_error(env, cty, decl.class_predicate, decl.data.drop_body, fuel) is None
}

/// The environment a drop body is checked in: `self` is `given` for a given
/// class; for another class `self` is held with a fresh universal
/// permission, assumed copy.
pub open spec fn drop_env(env: SEnv, cty: SNamedTy, cp: ClassPredicate) -> SEnv {
    if cp == ClassPredicate::Given {
        SEnv {
            local_variables: env.local_variables.insert(SVar::This, STy::ApplyPerm(SPerm::Given, Box::new(STy::NamedTy(cty)))),
            ..env
        }
    } else {
        let u = UniversalVar { kind: Kind::Perm, var_index: env.universe };
        let pv = SPerm::Var(Variable::UniversalVar(u));
        SEnv {
            universe: (env.universe + 1) as usize,
            in_scope_vars: env.in_scope_vars.push(Variable::UniversalVar(u)),
            assumptions: env.assumptions + set![pp(ParameterPredicate::Copy, SParameter::Perm(pv))],
            local_variables: env.local_variables.insert(SVar::This, STy::ApplyPerm(pv, Box::new(STy::NamedTy(cty)))),
            ..env
        }
    }
}

/// The error checking a drop body gives, if any: an empty body is accepted;
/// otherwise it must type as `()` in [`drop_env`], with nothing live after it.
pub open spec fn drop_error(env: SEnv, cty: SNamedTy, cp: ClassPredicate, b: SBlock, fuel: nat) -> Option<STypeError> {
    if b.statements.len() == 0 {
        None
    } else if env.local_variables.dom().contains(SVar::This) {
        Some(STypeError::ShadowedVariable(SVar::This))
    } else {
        match expr_as_typing(drop_env(env, cty, cp), no_places(), SExpr::Block(b), unit_ty(), fuel) {
            STyping::Typed(_, _) => None,
            STyping::Fails => Some(STypeError::IllTypedBody),
            STyping::Unsupported => Some(STypeError::UnsupportedBody),
        }
    }
}

/// Checks the drop body of a class whose type is `class_ty` (see
/// [`drop_error`]).
pub fn check_drop_body(class_ty: &NamedTy, class_predicate: ClassPredicate, env: &Env, drop_body: &DropBody, fuel: usize) -> (r: Result<(), TypeError>)
    requires
        env@.universe < usize::MAX,
    ensures
        r is Ok <==> drop_error(env@, class_ty@, class_predicate, drop_body@, fuel as nat) is None,
        r matches Err(e) ==> drop_error(env@, class_ty@, class_predicate, drop_body@, fuel as nat) == Some(e@),
{
    proof {
        crate::grammar::lemma_statements_view(drop_body.block.statements@);
    }
    if drop_body.block.statements.len() == 0 {
        return Ok(());
    }
    let mut denv = env.copy();
    let this_perm = if class_predicate == ClassPredicate::Given {
        Perm::Given
    } else {
        let vars = denv.open_universal_vars(&vec![Kind::Perm]);
        let pv = Perm::Var(Variable::UniversalVar(vars[0]));
        let preds = vec![Predicate::Parameter(ParameterPredicate::Copy, Parameter::Perm(pv.copy()))];
        proof {
            let sp = pp(ParameterPredicate::Copy, SParameter::Perm(pv@));
            assert(preds@.map_values(|p: Predicate| p@) =~= seq![sp]);
            assert forall|x: SPredicate| seq![sp].to_set().contains(x) <==> set![sp].contains(x) by {
                if x == sp {
                    assert(seq![sp][0] == sp);
                }
            }
            assert(crate::env::predicates_set(preds@) =~= set![sp]);
        }
        denv.add_assumptions(preds);
        proof {
            let u = UniversalVar { kind: Kind::Perm, var_index: env@.universe };
            assert(vars@[0] == u);
            assert(denv@.in_scope_vars =~= env@.in_scope_vars.push(Variable::UniversalVar(u)));
            assert(denv@ == (SEnv {
                universe: (env@.universe + 1) as usize,
                in_scope_vars: env@.in_scope_vars.push(Variable::UniversalVar(u)),
                assumptions: env@.assumptions + set![pp(ParameterPredicate::Copy, SParameter::Perm(SPerm::Var(Variable::UniversalVar(u))))],
                ..env@
            }));
        }
        pv
    };
    assert(class_predicate == ClassPredicate::Given ==> denv@ == env@ && this_perm@ == SPerm::Given);
    let class_named = Ty::NamedTy(class_ty.copy());
    assert(class_named@ == STy::NamedTy(class_ty@));
    let ghost tp = this_perm@;
    let this_ty = Ty::ApplyPerm(this_perm, Box::new(class_named));
    assert(this_ty@ == STy::ApplyPerm(tp, Box::new(STy::NamedTy(class_ty@))));
    match denv.push_local_variable(Var::This, this_ty) {
        Ok(()) => {},
        Err(e) => return Err(e),
    }
    proof {
        let u = UniversalVar { kind: Kind::Perm, var_index: env@.universe };
        if class_predicate == ClassPredicate::Given {
            assert(denv@ == drop_env(env@, class_ty@, class_predicate));
        } else {
            assert(tp == SPerm::Var(Variable::UniversalVar(u)));
            assert(denv@.local_variables == env@.local_variables.insert(SVar::This, this_ty@));
            assert(denv@ == drop_env(env@, class_ty@, class_predicate));
        }
    }
    let e = Expr::Block(drop_body.block.copy());
    match can_type_expr_as(&denv, &LivePlaces::new(), &e, &unit_ty_exec(), fuel) {
        Some(true) => Ok(()),
        Some(false) => Err(TypeError::IllTypedBody),
        None => Err(TypeError::UnsupportedBody),
    }
}

fn inst_method_exec(m: &MethodDecl, params: &Vec<Parameter>) -> (r: MethodDecl)
    ensures
        r@ == inst_method(m@, parameters_view(params@)),
{
    let data = &m.binder.term;
    let mut inputs: Vec<LocalVariableDecl> = Vec::new();
    let mut i: usize = 0;
    while i < data.inputs.len()
        invariant
            i <= data.inputs@.len(),
            inputs@.len() == i,
            forall|j: int| 0 <= j < i ==> #[trigger] inputs@[j]@ == (SLocalVariableDecl {
                name: data.inputs@[j]@.name,
                ty: subst_ty(data.inputs@[j]@.ty, parameters_view(params@), 1),
            }),
        decreases data.inputs.len() - i,
    {
        let d = &data.inputs[i];
        inputs.push(LocalVariableDecl { name: d.name.copy(), ty: subst_ty_exec(&d.ty, params, 1) });
        i = i + 1;
    }
    let preds = subst_predicates_exec(&data.predicates, params, 1);
    let body = match &data.body {
        MethodBody::Trusted => MethodBody::Trusted,
        MethodBody::Block(b) => MethodBody::Block(b.copy()),
    };
    let r = MethodDecl {
        name: m.name.copy(),
        binder: Binder {
            kinds: m.binder.kinds.clone(),
            term: MethodDeclBoundData {
                this: ThisDecl { perm: subst_perm_exec(&data.this.perm, params, 1) },
                inputs,
                output: subst_ty_exec(&data.output, params, 1),
                predicates: preds,
                body,
            },
        },
    };
    assert(r@.data.inputs =~= inst_method(m@, parameters_view(params@)).data.inputs);
    assert(r@.data.predicates =~= inst_method(m@, parameters_view(params@)).data.predicates);
    r
}

/// Checks a class declaration of `program` (see [`class_ok`]); `fuel`
/// bounds how many times the type of a place is looked up along one line
/// of reasoning when proving predicates.
#[verifier::loop_isolation(false)]
pub fn check_class(program: &std::sync::Arc<Program>, decl: &ClassDecl, fuel: usize) -> (r: Result<(), TypeError>)
    requires
        forall|i: int| 0 <= i < decl@.data.methods.len() ==> decl@.kinds.len() + (#[trigger] decl@.data.methods[i]).kinds.len() <= usize::MAX,
        decl@.kinds.len() < usize::MAX,
    ensures
        r is Ok <==> class_ok((**program)@, decl@, fuel as nat),
{
    let ghost d = decl@;
    let ghost svars = class_vars(d);
    let ghost sparams = var_params(svars);
    let ghost senv = class_env((**program)@, d);
    let ghost cty = class_named_ty(d);
    let mut env = Env::new(program.clone());
    let n_kinds = decl.binder.kinds.len();
    assert(env@.universe + n_kinds <= usize::MAX);
    let vars = env.open_universal_vars(&decl.binder.kinds);
    assert(vars@ =~= svars);
    let params = class_params(&vars);
    let data = &decl.binder.term;
    let preds = subst_predicates_exec(&data.predicates, &params, 0);
    assert(preds@.map_values(|p: Predicate| p@) =~= class_preds(d));
    let class_ty = NamedTy { name: TypeName::Id(decl.name.copy()), parameters: crate::grammar::copy_parameters(&params) };
    assert(class_ty@ == cty);
    let checked_preds = copy_predicate_vec(&preds);
    env.add_assumptions(preds);
    assert(env@.in_scope_vars =~= senv.in_scope_vars);
    assert(env@.assumptions =~= senv.assumptions);
    assert(env@ == senv);
    match check_predicates(&env, &checked_preds) {
        Ok(()) => {},
        Err(e) => {
            proof {
                let i = choose|i: int| 0 <= i < checked_preds@.len() && !predicate_parameter_ok(senv, pred_param(#[trigger] checked_preds@[i]@));
                assert(class_preds(d)[i] == checked_preds@[i]@);
            }
            return Err(e);
        },
    }
    assert(forall|i: int| 0 <= i < class_preds(d).len() ==> predicate_parameter_ok(senv, pred_param(#[trigger] class_preds(d)[i]))) by {
        assert forall|i: int| 0 <= i < class_preds(d).len() implies predicate_parameter_ok(senv, pred_param(#[trigger] class_preds(d)[i])) by {
            assert(class_preds(d)[i] == checked_preds@[i]@);
        }
    }
    let mut i: usize = 0;
    while i < data.fields.len()
        invariant
            env@ == senv,
            i <= data.fields@.len(),
            forall|j: int| 0 <= j < i ==> {
                let f = inst_field(#[trigger] d.data.fields[j], sparams);
                ty_ok(field_env(senv, cty), f.ty) && field_obligations(senv, cty, svars, d.class_predicate, f, fuel as nat)
            },
        decreases data.fields.len() - i,
    {
        let f = &data.fields[i];
        let fi = FieldDecl { atomic: f.atomic, name: f.name.copy(), ty: subst_ty_exec(&f.ty, &params, 0) };
        assert(fi@ == inst_field(d.data.fields[i as int], sparams));
        match check_field(&class_ty, &env, &vars, decl.class_predicate, &fi, fuel) {
            Ok(()) => {},
            Err(e) => return Err(e),
        }
        i = i + 1;
    }
    let mut k: usize = 0;
    while k < data.methods.len()
        invariant
            env@ == senv,
            k <= data.methods@.len(),
            forall|j: int| 0 <= j < k ==> method_ok(cty, senv, inst_method(#[trigger] d.data.methods[j], sparams), fuel as nat),
        decreases data.methods.len() - k,
    {
        let mi = inst_method_exec(&data.methods[k], &params);
        assert(mi@ == inst_method(d.data.methods[k as int], sparams));
        assert(d.data.methods[k as int].kinds.len() + d.kinds.len() <= usize::MAX);
        match check_method(&class_ty, &env, &mi, fuel) {
            Ok(()) => {},
            Err(e) => return Err(e),
        }
        k = k + 1;
    }
    check_drop_body(&class_ty, decl.class_predicate, &env, &data.drop_body, fuel)
}

fn class_params(vars: &Vec<UniversalVar>) -> (r: Vec<Parameter>)
    ensures
        parameters_view(r@) == var_params(vars@),
{
    let mut out: Vec<Parameter> = Vec::new();
    let mut i: usize = 0;
    while i < vars.len()
        invariant
            i <= vars@.len(),
            out@.len() == i,
            forall|j: int| 0 <= j < i ==> #[trigger] out@[j]@ == var_parameter(vars@[j]),
        decreases vars.len() - i,
    {
        let v = vars[i];
        let p = match v.kind {
            Kind::Ty => Parameter::Ty(Ty::Var(Variable::UniversalVar(v))),
            Kind::Perm => Parameter::Perm(Perm::Var(Variable::UniversalVar(v))),
        };
        out.push(p);
        i = i + 1;
    }
    proof {
        crate::grammar::lemma_parameters_view(out@);
        assert(parameters_view(out@) =~= var_params(vars@));
    }
    out
}

fn copy_predicate_vec(ps: &Vec<Predicate>) -> (r: Vec<Predicate>)
    ensures
        r@.len() == ps@.len(),
        forall|i: int| 0 <= i < ps@.len() ==> #[trigger] r@[i]@ == ps@[i]@,
{
    let mut out: Vec<Predicate> = Vec::new();
    let mut i: usize = 0;
    while i < ps.len()
        invariant
            i <= ps@.len(),
            out@.len() == i,
            forall|j: int| 0 <= j < i ==> #[trigger] out@[j]@ == ps@[j]@,
        decreases ps.len() - i,
    {
        out.push(ps[i].copy());
        i = i + 1;
    }
    out
}

/// A class that passes the check meets its class predicate in every field:
/// in a share class every field type can be shared, and in a shared class
/// every field type is shared, assuming the class's type parameters are. A
/// share class with a field of a given class type is therefore refused.
pub proof fn law_checked_class_fields_meet_class_predicate(program: Seq<SClassDecl>, decl: SClassDecl, fuel: nat, i: int)
    requires
        class_ok(program, decl, fuel),
        0 <= i < decl.data.fields.len(),
    ensures
        decl.class_predicate == ClassPredicate::Share ==> {
            let e = field_env(class_env(program, decl), class_named_ty(decl));
            provable(
                SEnv { assumptions: e.assumptions + type_params_meet(ParameterPredicate::Share, class_vars(decl)), ..e },
                pp(ParameterPredicate::Share, SParameter::Ty(inst_field(decl.data.fields[i], var_params(class_vars(decl))).ty)),
                fuel,
            )
        },
        decl.class_predicate == ClassPredicate::Shared ==> {
            let e = field_env(class_env(program, decl), class_named_ty(decl));
            provable(
                SEnv { assumptions: e.assumptions + type_params_meet(ParameterPredicate::Shared, class_vars(decl)), ..e },
                pp(ParameterPredicate::Shared, SParameter::Ty(inst_field(decl.data.fields[i], var_params(class_vars(decl))).ty)),
                fuel,
            )
        },
{
    let f = inst_field(decl.data.fields[i], var_params(class_vars(decl)));
    assert(field_obligations(class_env(program, decl), class_named_ty(decl), class_vars(decl), decl.class_predicate, f, fuel));
}

/// A class that passes the check has a drop body that is empty or types as
/// `()` with `self` in scope and nothing live afterwards.
pub proof fn law_checked_drop_bodies_type(program: Seq<SClassDecl>, decl: SClassDecl, fuel: nat)
    requires
        class_ok(program, decl, fuel),
    ensures
        decl.data.drop_body.statements.len() == 0 || exists|e: SEnv| #![trigger e.local_variables] e.local_variables.dom().contains(SVar::This)
            && expr_as_typing(e, no_places(), SExpr::Block(decl.data.drop_body), STy::NamedTy(SNamedTy { name: STypeName::Tuple(0), parameters: Seq::empty() }), fuel) is Typed,
{
    if decl.data.drop_body.statements.len() != 0 {
        let e = drop_env(class_env(program, decl), class_named_ty(decl), decl.class_predicate);
        assert(e.local_variables.dom().contains(SVar::This));
        assert(unit_ty() == STy::NamedTy(SNamedTy { name: STypeName::Tuple(0), parameters: Seq::empty() }));
    }
}

} // verus!
