//! Typing expressions, statements and blocks.
//!
//! The rules cover literals, arithmetic and comparisons, tuples, `share`,
//! `is_last_ref`, `if`, `panic`, accesses to places, expression statements,
//! `let` and assignment statements, object construction and blocks.
//! Calls, array operations, and blocks whose type names one of their own `let`
//! variables are reported as [`Typing::Unsupported`].
use vstd::prelude::*;

use crate::accesses::{access_permitted, env_permits, env_permits_access, param_permits, parameter_permits_access};
use crate::env::{pop_vars, popped_fresh, pushed_fresh, transform_env, Env, SEnv};
use crate::pop_normalize::{param_refs, params_refs, perm_references_vars, vars_view};
use crate::grammar::{
    exprs_view, lemma_exprs_view, lemma_parameters_view, lemma_statements_view, parameters_view,
    place_set, statements_view, var_place, Access, Ascription, BinaryOp, Block, SAscription, SPlace, Expr, NamedTy, Parameter, ParameterPredicate, Perm,
    Place, SBlock, SExpr, SNamedTy, SParameter, SPerm, SStatement, STy, STypeName, SVar, Statement,
    Ty, TypeName, Var,
};
use crate::in_flight::{put_one, InFlight, STransform};
use crate::places::{owner_and_field_ty_of, place_ty_of};
use crate::binder::{instantiate_fields, instantiation_error, subst_field, subst_predicate, subst_predicates_exec};
use crate::grammar::{class_index, FieldDecl, Ident, Predicate, SFieldDecl, SPredicate};
use crate::in_flight::transform_ty;
use crate::liveness::{
    adjust_exprs, adjust_statements, live_before_expr, live_before_exprs, live_before_statements,
    live_overwritten, live_union, live_vars, no_places, LivePlaces, SLivePlaces,
};
use crate::methods::unit_ty;
use crate::predicates::{pp, provable, prove_is_copy, prove_is_move, prove_is_shareable, prove_predicates};
use crate::subtypes::{perm_ty_parts, split_perm_ty, sub_rel};

verus! {

broadcast use vstd::std_specs::vec::axiom_vec_decreases_to_view;

/// The outcome of typing: the environment after the term and its type; a
/// failure, where no rule gives the term a type; or a term these rules do
/// not cover (which includes an access checked while a live place names a
/// variable that is not in scope).
pub enum STyping {
    Typed(SEnv, STy),
    Fails,
    Unsupported,
}

pub enum Typing {
    Typed(Env, Ty),
    Fails,
    Unsupported,
}

impl View for Typing {
    type V = STyping;

    open spec fn view(&self) -> STyping {
        match self {
            Typing::Typed(e, t) => STyping::Typed(e@, t@),
            Typing::Fails => STyping::Fails,
            Typing::Unsupported => STyping::Unsupported,
        }
    }
}

/// The outcome of typing a sequence of expressions.
pub enum STypings {
    Typed(SEnv, Seq<STy>),
    Fails,
    Unsupported,
}

pub enum Typings {
    Typed(Env, Vec<Ty>),
    Fails,
    Unsupported,
}

impl View for Typings {
    type V = STypings;

    open spec fn view(&self) -> STypings {
        match self {
            Typings::Typed(e, ts) => STypings::Typed(e@, ts@.map_values(|t: Ty| t@)),
            Typings::Fails => STypings::Fails,
            Typings::Unsupported => STypings::Unsupported,
        }
    }
}

pub open spec fn int_ty() -> STy {
    STy::NamedTy(SNamedTy { name: STypeName::Int, parameters: Seq::empty() })
}

pub open spec fn bool_ty() -> STy {
    STy::NamedTy(SNamedTy { name: STypeName::Bool, parameters: Seq::empty() })
}

/// The tuple of the types `tys`.
pub open spec fn tuple_ty(tys: Seq<STy>) -> STy {
    STy::NamedTy(SNamedTy {
        name: STypeName::Tuple(tys.len() as usize),
        parameters: tys.map_values(|t: STy| SParameter::Ty(t)),
    })
}

/// `+`, `-`, `*` and `/`, whose results are integers; the other operators
/// compare.
pub open spec fn is_arithmetic_op(op: BinaryOp) -> bool {
    op == BinaryOp::Add || op == BinaryOp::Sub || op == BinaryOp::Mul || op == BinaryOp::Div
}

/// Typing `e` where `live` is live afterwards; `fuel` bounds the proofs of
/// subtyping and of predicates the rules need.
pub open spec fn expr_typing(env: SEnv, live: SLivePlaces, e: SExpr, fuel: nat) -> STyping
    decreases e, 0nat, 0nat,
{
    match e {
        SExpr::Block(b) => block_typing(env, live, b, fuel),
        SExpr::Integer(_) => STyping::Typed(env, int_ty()),
        SExpr::SizeOf(_) => STyping::Typed(env, int_ty()),
        SExpr::True => STyping::Typed(env, bool_ty()),
        SExpr::False => STyping::Typed(env, bool_ty()),
        SExpr::BinaryOp(lhs, op, rhs) => match expr_as_typing(env, live_before_expr(*rhs, live), *lhs, int_ty(), fuel) {
            STyping::Typed(e1, _) => match expr_as_typing(e1, live, *rhs, int_ty(), fuel) {
                STyping::Typed(e2, _) => STyping::Typed(e2, if is_arithmetic_op(op) { int_ty() } else { bool_ty() }),
                r => r,
            },
            r => r,
        },
        SExpr::Tuple(es) => match exprs_typing(env, live, es, fuel) {
            STypings::Typed(e1, tys) => STyping::Typed(e1, tuple_ty(tys)),
            STypings::Fails => STyping::Fails,
            STypings::Unsupported => STyping::Unsupported,
        },
        SExpr::Share(x) => match expr_typing(env, live, *x, fuel) {
            STyping::Typed(e1, t) => if provable(e1, pp(ParameterPredicate::Share, SParameter::Ty(t)), fuel) {
                STyping::Typed(e1, STy::ApplyPerm(SPerm::Shared, Box::new(t)))
            } else {
                STyping::Fails
            },
            r => r,
        },
        SExpr::IsLastRef(_, x) => match expr_typing(env, live, *x, fuel) {
            STyping::Typed(e1, _) => STyping::Typed(e1, bool_ty()),
            r => r,
        },
        SExpr::If(c, t, f) => {
            let live_c = live_union(live_union(no_places(), live_before_expr(*t, live)), live_before_expr(*f, live));
            match expr_as_typing(env, live_c, *c, bool_ty(), fuel) {
                STyping::Typed(e1, _) => match expr_as_typing(e1, live, *t, unit_ty(), fuel) {
                    STyping::Typed(e2, _) => match expr_as_typing(e2, live, *f, unit_ty(), fuel) {
                        STyping::Typed(e3, _) => STyping::Typed(e3, unit_ty()),
                        r => r,
                    },
                    r => r,
                },
                r => r,
            }
        },
        SExpr::Place(pe) => place_typing(env, live, pe.access, pe.place, fuel),
        SExpr::New(c, params, es) => new_typing(env, live, c, params, es, fuel),
        SExpr::Clear(_) => STyping::Fails,
        SExpr::Panic => STyping::Fails,
        _ => STyping::Unsupported,
    }
}

/// Typing `new C[params](es)`: the class must exist and take `params`,
/// there must be one expression per field, and the class's predicates must
/// hold. The object under construction is a fresh temporary of type
/// `C[params]`; each expression is typed in turn, stored into its field of
/// the temporary, and must be a subtype of the field's type (in which
/// `self` names the temporary). The temporary then becomes the in-flight
/// value and is popped.
pub open spec fn new_typing(env: SEnv, live: SLivePlaces, c: Seq<char>, params: Seq<SParameter>, es: Seq<SExpr>, fuel: nat) -> STyping
    decreases es, 1nat, 0nat,
{
    let i = class_index(env.program, c);
    if i < 0 || instantiation_error(env.program[i].kinds, params) is Some {
        STyping::Fails
    } else {
        let decl = env.program[i];
        let fields = decl.data.fields.map_values(|f: SFieldDecl| subst_field(f, params));
        let preds = decl.data.predicates.map_values(|p: SPredicate| subst_predicate(p, params, 0));
        let this_ty = STy::NamedTy(SNamedTy { name: STypeName::Id(c), parameters: params });
        let temp = SVar::Fresh(env.fresh);
        if fields.len() != es.len() || !(forall|k: int| 0 <= k < preds.len() ==> provable(env, #[trigger] preds[k], fuel)) {
            STyping::Fails
        } else if env.local_variables.dom().contains(temp) || env.fresh >= usize::MAX {
            STyping::Unsupported
        } else {
            match fields_typing(pushed_fresh(env, this_ty), live, temp, es, fields, fuel) {
                STyping::Typed(e1, _) => {
                    let e2 = transform_env(e1, STransform::Give(var_place(temp)));
                    if e2.fresh == 0 || temp != SVar::Fresh((e2.fresh - 1) as usize) || !e2.local_variables.dom().contains(temp) {
                        STyping::Unsupported
                    } else {
                        STyping::Typed(popped_fresh(e2), this_ty)
                    }
                },
                r => r,
            }
        }
    }
}

/// The place `temp.f`.
pub open spec fn field_place(temp: SVar, f: Seq<char>) -> SPlace {
    SPlace { var: temp, projections: seq![f] }
}

/// Typing the expressions `es` of a `new` against the fields `fields` of
/// the object under construction in `temp`.
pub open spec fn fields_typing(env: SEnv, live: SLivePlaces, temp: SVar, es: Seq<SExpr>, fields: Seq<SFieldDecl>, fuel: nat) -> STyping
    decreases es, 0nat, 0nat,
{
    if es.len() == 0 || fields.len() == 0 {
        STyping::Typed(env, unit_ty())
    } else {
        let rest = es.subrange(1, es.len() as int);
        let live_e = live_before_exprs(rest, live);
        let field_ty = transform_ty(fields[0].ty, put_one(SVar::This, var_place(temp)));
        let target = field_place(temp, fields[0].name);
        match expr_typing(env, live_e, es[0], fuel) {
            STyping::Typed(e1, ety) => {
                let e2 = transform_env(e1, put_one(SVar::InFlight, target));
                let ety2 = transform_ty(ety, put_one(SVar::InFlight, target));
                if sub_rel(e2, live_e, SParameter::Ty(ety2), SParameter::Ty(field_ty), fuel) {
                    fields_typing(e2, live, temp, rest, fields.subrange(1, fields.len() as int), fuel)
                } else {
                    STyping::Fails
                }
            },
            r => r,
        }
    }
}

/// Moving the value of `place`, of type `ty`: a place still live afterwards
/// must be copy, and is left as it is; otherwise it is marked as moved into
/// the in-flight value.
pub open spec fn moved_place(env: SEnv, live: SLivePlaces, place: SPlace, ty: STy, fuel: nat) -> Option<SEnv> {
    if crate::liveness::live(live, place) {
        if provable(env, pp(ParameterPredicate::Copy, SParameter::Ty(ty)), fuel) {
            Some(env)
        } else {
            None
        }
    } else {
        Some(transform_env(env, STransform::Give(place)))
    }
}

/// Typing an access to `place`: the access must be permitted and the place
/// must have a type. `ref` gives the place's type, without its
/// permissions, under `ref[place]`; `mut` also needs the type to be move and
/// gives it under `mut[place]`; `give` moves the place and has its type;
/// `drop` moves the place and has type `()`.
pub open spec fn place_typing(env: SEnv, live: SLivePlaces, access: Access, place: SPlace, fuel: nat) -> STyping {
    if !(forall|v| #[trigger] live_vars(live).contains(v) ==> env.local_variables.dom().contains(v)) {
        STyping::Unsupported
    } else if !env_permits(env, live, access, place, fuel) {
        STyping::Fails
    } else {
        match place_ty_of(env, place) {
            Err(_) => STyping::Fails,
            Ok(tp) => match access {
                Access::Rf => STyping::Typed(env, STy::ApplyPerm(SPerm::Rf(set![place]), Box::new(perm_ty_parts(tp).1))),
                Access::Mt => if provable(env, pp(ParameterPredicate::Move, SParameter::Ty(tp)), fuel) {
                    STyping::Typed(env, STy::ApplyPerm(SPerm::Mt(set![place]), Box::new(perm_ty_parts(tp).1)))
                } else {
                    STyping::Fails
                },
                Access::Gv => match moved_place(env, live, place, tp, fuel) {
                    Some(e1) => STyping::Typed(e1, tp),
                    None => STyping::Fails,
                },
                Access::Drop => match moved_place(env, live, place, tp, fuel) {
                    Some(e1) => STyping::Typed(e1, unit_ty()),
                    None => STyping::Fails,
                },
            },
        }
    }
}

/// Typing `e` as a value of type `ty`: `panic` has every type; otherwise
/// the type of `e` must be a subtype of `ty`.
pub open spec fn expr_as_typing(env: SEnv, live: SLivePlaces, e: SExpr, ty: STy, fuel: nat) -> STyping
    decreases e, 1nat, 0nat,
{
    if e is Panic {
        STyping::Typed(env, ty)
    } else {
        match expr_typing(env, live, e, fuel) {
            STyping::Typed(e1, t) => if sub_rel(e1, live, SParameter::Ty(t), SParameter::Ty(ty), fuel) {
                STyping::Typed(e1, ty)
            } else {
                STyping::Fails
            },
            r => r,
        }
    }
}

/// Typing `es` left to right, each in the environment the previous one
/// left.
pub open spec fn exprs_typing(env: SEnv, live: SLivePlaces, es: Seq<SExpr>, fuel: nat) -> STypings
    decreases es, 0nat, 0nat,
{
    if es.len() == 0 {
        STypings::Typed(env, Seq::empty())
    } else {
        let rest = es.subrange(1, es.len() as int);
        match expr_typing(env, live_before_exprs(rest, live), es[0], fuel) {
            STyping::Typed(e1, t) => match exprs_typing(e1, live, rest, fuel) {
                STypings::Typed(e2, ts) => STypings::Typed(e2, seq![t] + ts),
                r => r,
            },
            STyping::Fails => STypings::Fails,
            STyping::Unsupported => STypings::Unsupported,
        }
    }
}

/// Dropping the value of type `ty` an expression statement produced: it is
/// stored in a fresh temporary, the temporary must be droppable, and it is
/// popped again.
pub open spec fn temp_dropped(env: SEnv, live: SLivePlaces, ty: STy, fuel: nat) -> STyping {
    let temp = SVar::Fresh(env.fresh);
    if env.local_variables.dom().contains(temp) || env.fresh >= usize::MAX {
        STyping::Unsupported
    } else {
        let e2 = transform_env(pushed_fresh(env, ty), put_one(SVar::InFlight, var_place(temp)));
        if !(forall|v| #[trigger] live_vars(live).contains(v) ==> e2.local_variables.dom().contains(v)) {
            STyping::Unsupported
        } else if env_permits(e2, live, Access::Drop, var_place(temp), fuel)
            && param_permits(e2, SParameter::Ty(ty), Access::Drop, var_place(temp), fuel) {
            STyping::Typed(popped_fresh(e2), ty)
        } else {
            STyping::Fails
        }
    }
}

/// Typing one statement. An expression statement has the type of its
/// expression, whose value is dropped. `let x = e` (with or without a
/// written type, which `e` must then have) types `e` with `x` overwritten
/// afterwards, introduces `x` (failing if a variable of that name is in
/// scope) and stores the value into it; it has type `()`. An assignment
/// types its value as the type of the assigned field or variable, with the
/// place overwritten afterwards, and stores it (see [`reassigned`]); it has
/// type `()`. Loops, `break`, `return` and `print` have no typing rule.
pub open spec fn stmt_typing(env: SEnv, live: SLivePlaces, st: SStatement, fuel: nat) -> STyping
    decreases st, 0nat, 0nat,
{
    match st {
        SStatement::Expr(e) => match expr_typing(env, live, e, fuel) {
            STyping::Typed(e1, t) => temp_dropped(e1, live, t, fuel),
            r => r,
        },
        SStatement::Let(id, asc, e) => {
            let x = SVar::Id(id);
            let live_e = live_overwritten(live, var_place(x));
            let r = match asc {
                SAscription::NoTy => expr_typing(env, live_e, *e, fuel),
                SAscription::Ty(t) => expr_as_typing(env, live_e, *e, t, fuel),
            };
            match r {
                STyping::Typed(e1, ty) => if e1.local_variables.dom().contains(x) {
                    STyping::Fails
                } else {
                    STyping::Typed(
                        transform_env(SEnv { local_variables: e1.local_variables.insert(x, ty), ..e1 }, put_one(SVar::InFlight, var_place(x))),
                        unit_ty(),
                    )
                },
                r => r,
            }
        },
        SStatement::Reassign(place, e) => match owner_and_field_ty_of(env, place) {
            Err(_) => STyping::Fails,
            Ok((owner, field_ty)) => match expr_as_typing(env, live_overwritten(live, place), e, field_ty, fuel) {
                STyping::Typed(e1, _) => reassigned(e1, live, place, owner, field_ty, fuel),
                r => r,
            },
        },
        _ => STyping::Fails,
    }
}

/// Storing the value of an assignment to `place`, of type `field_ty`, whose
/// owner has type `owner` (if it has one): the value is put into a fresh
/// temporary, the owner must be move, leasing `place` must be permitted, and
/// the temporary is then stored into `place` and popped.
pub open spec fn reassigned(env: SEnv, live: SLivePlaces, place: SPlace, owner: Option<STy>, field_ty: STy, fuel: nat) -> STyping {
    let temp = SVar::Fresh(env.fresh);
    if env.local_variables.dom().contains(temp) || env.fresh >= usize::MAX {
        STyping::Unsupported
    } else {
        let e2 = transform_env(pushed_fresh(env, field_ty), put_one(SVar::InFlight, var_place(temp)));
        if !(forall|v| #[trigger] live_vars(live).contains(v) ==> e2.local_variables.dom().contains(v)) {
            STyping::Unsupported
        } else if !(match owner {
            Some(ot) => provable(e2, pp(ParameterPredicate::Move, SParameter::Ty(ot)), fuel),
            None => true,
        }) || !env_permits(e2, live, Access::Mt, place, fuel) {
            STyping::Fails
        } else {
            STyping::Typed(popped_fresh(transform_env(e2, put_one(temp, place))), unit_ty())
        }
    }
}

/// The variables the `let` statements among `ss` introduce, in order.
pub open spec fn let_vars(ss: Seq<SStatement>) -> Seq<SVar>
    decreases ss.len(),
{
    if ss.len() == 0 {
        Seq::empty()
    } else {
        match ss.last() {
            SStatement::Let(id, _, _) => let_vars(ss.drop_last()).push(SVar::Id(id)),
            _ => let_vars(ss.drop_last()),
        }
    }
}

/// Typing statements in turn; the type is that of the last statement, or
/// `ty` when there is none.
pub open spec fn stmts_typing(env: SEnv, live: SLivePlaces, ss: Seq<SStatement>, ty: STy, fuel: nat) -> STyping
    decreases ss, 0nat, 0nat,
{
    if ss.len() == 0 {
        STyping::Typed(env, ty)
    } else {
        let rest = ss.subrange(1, ss.len() as int);
        match stmt_typing(env, live_before_statements(rest, live), ss[0], fuel) {
            STyping::Typed(e1, t) => stmts_typing(e1, live, rest, t, fuel),
            r => r,
        }
    }
}

/// Typing a block: its statements, starting from `()`; then the variables
/// its `let` statements introduced are popped (expression statements leave
/// none behind, and inner blocks pop their own). A result type that names
/// one of them would have to be normalized first; that case is not
/// covered.
pub open spec fn block_typing(env: SEnv, live: SLivePlaces, b: SBlock, fuel: nat) -> STyping
    decreases b, 0nat, 0nat,
{
    match stmts_typing(env, live, b.statements, unit_ty(), fuel) {
        STyping::Typed(e1, ty) => {
            let vars = let_vars(b.statements);
            if param_refs(SParameter::Ty(ty), vars) {
                STyping::Unsupported
            } else {
                match pop_vars(e1.local_variables, vars).1 {
                    None => STyping::Typed(SEnv { local_variables: pop_vars(e1.local_variables, vars).0, ..e1 }, ty),
                    Some(_) => STyping::Fails,
                }
            }
        },
        r => r,
    }
}

fn int_ty_exec() -> (r: Ty)
    ensures
        r@ == int_ty(),
{
    let r = Ty::NamedTy(NamedTy { name: TypeName::Int, parameters: Vec::new() });
    assert(parameters_view(Seq::<Parameter>::empty()) =~= Seq::<SParameter>::empty());
    r
}

fn bool_ty_exec() -> (r: Ty)
    ensures
        r@ == bool_ty(),
{
    let r = Ty::NamedTy(NamedTy { name: TypeName::Bool, parameters: Vec::new() });
    assert(parameters_view(Seq::<Parameter>::empty()) =~= Seq::<SParameter>::empty());
    r
}

/// The unit type `()`.
pub fn unit_ty_exec() -> (r: Ty)
    ensures
        r@ == unit_ty(),
{
    let r = Ty::NamedTy(NamedTy { name: TypeName::Tuple(0), parameters: Vec::new() });
    assert(parameters_view(Seq::<Parameter>::empty()) =~= Seq::<SParameter>::empty());
    r
}

fn tuple_ty_exec(tys: &Vec<Ty>) -> (r: Ty)
    ensures
        r@ == tuple_ty(tys@.map_values(|t: Ty| t@)),
{
    let mut ps: Vec<Parameter> = Vec::new();
    let mut i: usize = 0;
    while i < tys.len()
        invariant
            i <= tys@.len(),
            ps@.len() == i,
            forall|j: int| 0 <= j < i ==> #[trigger] ps@[j]@ == SParameter::Ty(tys@[j]@),
        decreases tys.len() - i,
    {
        ps.push(Parameter::Ty(tys[i].copy()));
        i = i + 1;
    }
    proof {
        lemma_parameters_view(ps@);
        assert(parameters_view(ps@) =~= tys@.map_values(|t: Ty| t@).map_values(|t: STy| SParameter::Ty(t)));
    }
    Ty::NamedTy(NamedTy { name: TypeName::Tuple(tys.len()), parameters: ps })
}

fn suffix_exprs(es: &Vec<Expr>, k: usize) -> (r: Vec<Expr>)
    requires
        k <= es@.len(),
    ensures
        exprs_view(r@) == exprs_view(es@).subrange(k as int, es@.len() as int),
{
    let mut r: Vec<Expr> = Vec::new();
    let mut i: usize = k;
    while i < es.len()
        invariant
            k <= i <= es@.len(),
            r@.len() == i - k,
            forall|j: int| 0 <= j < r@.len() ==> #[trigger] r@[j]@ == es@[k + j]@,
        decreases es.len() - i,
    {
        r.push(es[i].copy());
        i = i + 1;
    }
    proof {
        lemma_exprs_view(r@);
        lemma_exprs_view(es@);
        assert(exprs_view(r@) =~= exprs_view(es@).subrange(k as int, es@.len() as int));
    }
    r
}

fn suffix_statements(ss: &Vec<Statement>, k: usize) -> (r: Vec<Statement>)
    requires
        k <= ss@.len(),
    ensures
        statements_view(r@) == statements_view(ss@).subrange(k as int, ss@.len() as int),
{
    let mut r: Vec<Statement> = Vec::new();
    let mut i: usize = k;
    while i < ss.len()
        invariant
            k <= i <= ss@.len(),
            r@.len() == i - k,
            forall|j: int| 0 <= j < r@.len() ==> #[trigger] r@[j]@ == ss@[k + j]@,
        decreases ss.len() - i,
    {
        r.push(ss[i].copy());
        i = i + 1;
    }
    proof {
        lemma_statements_view(r@);
        lemma_statements_view(ss@);
        assert(statements_view(r@) =~= statements_view(ss@).subrange(k as int, ss@.len() as int));
    }
    r
}

/// True if every variable of a live place is a local variable of `env`.
fn live_vars_are_locals(env: &Env, live: &LivePlaces) -> (r: bool)
    ensures
        r == forall|v| #[trigger] live_vars(live@).contains(v) ==> env@.local_variables.dom().contains(v),
{
    let vars = live.vars();
    let ghost vv = vars@.map_values(|v: Var| v@);
    let mut i: usize = 0;
    while i < vars.len()
        invariant
            vv == vars@.map_values(|v: Var| v@),
            vv.to_set() == live_vars(live@),
            i <= vars@.len(),
            forall|j: int| 0 <= j < i ==> env@.local_variables.dom().contains(#[trigger] vv[j]),
        decreases vars.len() - i,
    {
        if !env.has_local(&vars[i]) {
            assert(vv[i as int] == vars@[i as int]@);
            assert(vv.to_set().contains(vv[i as int]));
            return false;
        }
        i = i + 1;
    }
    proof {
        assert forall|v| #[trigger] live_vars(live@).contains(v) implies env@.local_variables.dom().contains(v) by {
            assert(vv.to_set().contains(v));
            let j = choose|j: int| 0 <= j < vv.len() && vv[j] == v;
        }
    }
    true
}

/// Stores the value of an expression statement in a fresh temporary, checks
/// it may be dropped, and pops it (see [`temp_dropped`]).
fn drop_temp(env: Env, live: &LivePlaces, ty: Ty, fuel: usize) -> (r: Typing)
    ensures
        r@ == temp_dropped(env@, live@, ty@, fuel as nat),
{
    let n = env.fresh();
    let temp = Var::Fresh(n);
    if env.has_local(&temp) || n == usize::MAX {
        return Typing::Unsupported;
    }
    let (e2, var) = env.push_fresh_variable_with_in_flight(ty.copy());
    assert(e2@ == transform_env(pushed_fresh(env@, ty@), put_one(SVar::InFlight, var_place(SVar::Fresh(n)))));
    if !live_vars_are_locals(&e2, live) {
        return Typing::Unsupported;
    }
    let place = Place::from_var(var.copy());
    let p = Parameter::Ty(ty.copy());
    if env_permits_access(&e2, live, Access::Drop, &place, fuel) && parameter_permits_access(&e2, &p, Access::Drop, &place, fuel) {
        assert(e2@.local_variables.dom().contains(SVar::Fresh(n)));
        let e3 = e2.pop_fresh_variable(&var);
        Typing::Typed(e3, ty)
    } else {
        Typing::Fails
    }
}

/// Types `e` where `live_after` is live afterwards (see [`expr_typing`]).
pub fn type_expr(env: &Env, live_after: &LivePlaces, e: &Expr, fuel: usize) -> (r: Typing)
    ensures
        r@ == expr_typing(env@, live_after@, e@, fuel as nat),
    decreases e, 0nat, 0nat,
{
    match e {
        Expr::Block(b) => type_block(env, live_after, b, fuel),
        Expr::Integer(_) => Typing::Typed(env.copy(), int_ty_exec()),
        Expr::SizeOf(_) => Typing::Typed(env.copy(), int_ty_exec()),
        Expr::True => Typing::Typed(env.copy(), bool_ty_exec()),
        Expr::False => Typing::Typed(env.copy(), bool_ty_exec()),
        Expr::BinaryOp(lhs, op, rhs) => {
            let l1 = live_after.before(&**rhs);
            let int_t = int_ty_exec();
            match type_expr_as(env, &l1, lhs, &int_t, fuel) {
                Typing::Typed(e1, _) => match type_expr_as(&e1, live_after, rhs, &int_t, fuel) {
                    Typing::Typed(e2, _) => {
                        let t = if op.is_arithmetic() { int_ty_exec() } else { bool_ty_exec() };
                        Typing::Typed(e2, t)
                    },
                    Typing::Fails => Typing::Fails,
                    Typing::Unsupported => Typing::Unsupported,
                },
                Typing::Fails => Typing::Fails,
                Typing::Unsupported => Typing::Unsupported,
            }
        },
        Expr::Tuple(es) => match type_exprs(env, live_after, es, fuel) {
            Typings::Typed(e1, tys) => {
                let t = tuple_ty_exec(&tys);
                Typing::Typed(e1, t)
            },
            Typings::Fails => Typing::Fails,
            Typings::Unsupported => Typing::Unsupported,
        },
        Expr::Share(x) => match type_expr(env, live_after, x, fuel) {
            Typing::Typed(e1, t) => {
                let p = Parameter::Ty(t.copy());
                if prove_is_shareable(&e1, &p, fuel) {
                    Typing::Typed(e1, Ty::ApplyPerm(Perm::Shared, Box::new(t)))
                } else {
                    Typing::Fails
                }
            },
            Typing::Fails => Typing::Fails,
            Typing::Unsupported => Typing::Unsupported,
        },
        Expr::IsLastRef(_, x) => match type_expr(env, live_after, x, fuel) {
            Typing::Typed(e1, _) => Typing::Typed(e1, bool_ty_exec()),
            Typing::Fails => Typing::Fails,
            Typing::Unsupported => Typing::Unsupported,
        },
        Expr::If(c, t, f) => {
            let lt = live_after.before(&**t);
            let lf = live_after.before(&**f);
            let lc = LivePlaces::new().union(lt).union(lf);
            let b = bool_ty_exec();
            let u = unit_ty_exec();
            match type_expr_as(env, &lc, c, &b, fuel) {
                Typing::Typed(e1, _) => match type_expr_as(&e1, live_after, t, &u, fuel) {
                    Typing::Typed(e2, _) => match type_expr_as(&e2, live_after, f, &u, fuel) {
                        Typing::Typed(e3, _) => Typing::Typed(e3, unit_ty_exec()),
                        Typing::Fails => Typing::Fails,
                        Typing::Unsupported => Typing::Unsupported,
                    },
                    Typing::Fails => Typing::Fails,
                    Typing::Unsupported => Typing::Unsupported,
                },
                Typing::Fails => Typing::Fails,
                Typing::Unsupported => Typing::Unsupported,
            }
        },
        Expr::Place(pe) => type_place(env, live_after, pe.access, &pe.place, fuel),
        Expr::New(c, params, es) => type_new(env, live_after, c, params, es, fuel),
        Expr::Clear(_) => Typing::Fails,
        Expr::Panic => Typing::Fails,
        _ => Typing::Unsupported,
    }
}

/// Types `new C[params](es)` (see [`new_typing`]).
fn type_new(env: &Env, live_after: &LivePlaces, c: &Ident, params: &Vec<Parameter>, es: &Vec<Expr>, fuel: usize) -> (r: Typing)
    ensures
        r@ == new_typing(env@, live_after@, c@, parameters_view(params@), exprs_view(es@), fuel as nat),
    decreases es, 1nat, 0nat,
{
    proof {
        lemma_exprs_view(es@);
        lemma_parameters_view(params@);
    }
    let prog = env.program();
    let decl = match prog.class_named(c) {
        Some(d) => d,
        None => return Typing::Fails,
    };
    let fields = match instantiate_fields(decl, params) {
        Ok(fs) => fs,
        Err(_) => return Typing::Fails,
    };
    let ghost sfields = fields@.map_values(|f: FieldDecl| f@);
    if fields.len() != es.len() {
        assert(sfields.len() == fields@.len());
        return Typing::Fails;
    }
    let preds = subst_predicates_exec(&decl.binder.term.predicates, params, 0);
    let ghost spreds = env@.program[class_index(env@.program, c@)].data.predicates.map_values(|p: SPredicate| subst_predicate(p, parameters_view(params@), 0));
    assert(preds@.map_values(|p: Predicate| p@) =~= spreds);
    if !prove_predicates(env, &preds, fuel) {
        proof {
            let k = choose|k: int| 0 <= k < preds@.len() && !provable(env@, #[trigger] preds@[k]@, fuel as nat);
            assert(spreds[k] == preds@[k]@);
        }
        return Typing::Fails;
    }
    assert(forall|k: int| 0 <= k < spreds.len() ==> provable(env@, #[trigger] spreds[k], fuel as nat)) by {
        assert forall|k: int| 0 <= k < spreds.len() implies provable(env@, #[trigger] spreds[k], fuel as nat) by {
            assert(spreds[k] == preds@[k]@);
        }
    }
    let n = env.fresh();
    if env.has_local(&Var::Fresh(n)) || n == usize::MAX {
        return Typing::Unsupported;
    }
    let this_ty = Ty::NamedTy(NamedTy { name: TypeName::Id(c.copy()), parameters: crate::grammar::copy_parameters(params) });
    assert(this_ty@ == STy::NamedTy(SNamedTy { name: STypeName::Id(c@), parameters: parameters_view(params@) }));
    let (e1, temp) = env.push_fresh_variable(this_ty.copy());
    proof {
        assert(exprs_view(es@).subrange(0, es@.len() as int) =~= exprs_view(es@));
        assert(sfields.subrange(0, sfields.len() as int) =~= sfields);
    }
    match type_fields_from(&e1, live_after, &temp, es, &fields, 0, fuel) {
        Typing::Typed(e2, _) => {
            let place = Place::from_var(temp.copy());
            let e3 = e2.with_place_in_flight(&place);
            let m = e3.fresh();
            if m == 0 || !e3.has_local(&temp) {
                return Typing::Unsupported;
            }
            if !temp.same(&Var::Fresh(m - 1)) {
                return Typing::Unsupported;
            }
            let e4 = e3.pop_fresh_variable(&temp);
            Typing::Typed(e4, this_ty)
        },
        Typing::Fails => Typing::Fails,
        Typing::Unsupported => Typing::Unsupported,
    }
}

/// Types the expressions of a `new` from position `i` on (see
/// [`fields_typing`]).
#[verifier::loop_isolation(false)]
fn type_fields_from(env: &Env, live_after: &LivePlaces, temp: &Var, es: &Vec<Expr>, fields: &Vec<FieldDecl>, i: usize, fuel: usize) -> (r: Typing)
    requires
        i <= es@.len(),
        es@.len() == fields@.len(),
    ensures
        r@ == fields_typing(env@, live_after@, temp@, exprs_view(es@).subrange(i as int, es@.len() as int),
            fields@.map_values(|f: FieldDecl| f@).subrange(i as int, fields@.len() as int), fuel as nat),
    decreases es, 0nat, es@.len() - i,
{
    proof {
        lemma_exprs_view(es@);
    }
    let ghost s = exprs_view(es@).subrange(i as int, es@.len() as int);
    let ghost fs = fields@.map_values(|f: FieldDecl| f@).subrange(i as int, fields@.len() as int);
    if i == es.len() {
        assert(s.len() == 0);
        return Typing::Typed(env.copy(), unit_ty_exec());
    }
    let rest = suffix_exprs(es, i + 1);
    let live_e = adjust_exprs(&rest, live_after.copy());
    assert(s[0] == es@[i as int]@);
    assert(fs[0] == fields@[i as int]@);
    assert(s.subrange(1, s.len() as int) =~= exprs_view(rest@));
    let f = &fields[i];
    let this_place = Place::from_var(temp.copy());
    let field_ty = f.ty.with_this_stored_to(&this_place);
    let target = this_place.project(&f.name);
    assert(target@ == field_place(temp@, f.name@)) by {
        assert(target@.projections =~= seq![f.name@]);
    }
    match type_expr(env, &live_e, &es[i], fuel) {
        Typing::Typed(e1, ety) => {
            let e2 = e1.with_in_flight_stored_to(&target);
            let ety2 = ety.with_in_flight_stored_to(&target);
            let a = Parameter::Ty(ety2);
            let b = Parameter::Ty(field_ty);
            if crate::subtypes::sub(&e2, &live_e, &a, &b, fuel) {
                proof {
                    assert(exprs_view(es@).subrange((i + 1) as int, es@.len() as int) =~= s.subrange(1, s.len() as int));
                    assert(fields@.map_values(|f: FieldDecl| f@).subrange((i + 1) as int, fields@.len() as int) =~= fs.subrange(1, fs.len() as int));
                }
                type_fields_from(&e2, live_after, temp, es, fields, i + 1, fuel)
            } else {
                Typing::Fails
            }
        },
        Typing::Fails => Typing::Fails,
        Typing::Unsupported => Typing::Unsupported,
    }
}

/// Moves the value of `place` (see [`moved_place`]).
fn move_place(env: &Env, live_after: &LivePlaces, place: &Place, ty: &Ty, fuel: usize) -> (r: Option<Env>)
    ensures
        match moved_place(env@, live_after@, place@, ty@, fuel as nat) {
            Some(e) => r matches Some(x) && x@ == e,
            None => r is None,
        },
{
    if live_after.is_live(place) {
        let p = Parameter::Ty(ty.copy());
        if prove_is_copy(env, &p, fuel) {
            Some(env.copy())
        } else {
            None
        }
    } else {
        Some(env.with_place_in_flight(place))
    }
}

/// Types an access to `place` (see [`place_typing`]).
fn type_place(env: &Env, live_after: &LivePlaces, access: Access, place: &Place, fuel: usize) -> (r: Typing)
    ensures
        r@ == place_typing(env@, live_after@, access, place@, fuel as nat),
{
    if !live_vars_are_locals(env, live_after) {
        return Typing::Unsupported;
    }
    if !access_permitted(env, live_after, access, place, fuel) {
        return Typing::Fails;
    }
    let tp = match env.place_ty(place) {
        Ok(t) => t,
        Err(_) => return Typing::Fails,
    };
    let one = vec![place.copy()];
    proof {
        assert(one@.map_values(|q: Place| q@) =~= seq![place@]);
        assert forall|x: SPlace| place_set(one@).contains(x) <==> set![place@].contains(x) by {
            if x == place@ {
                assert(seq![place@][0] == place@);
            }
        }
        assert(place_set(one@) =~= set![place@]);
    }
    match access {
        Access::Rf => {
            let (_, base) = split_perm_ty(&tp);
            Typing::Typed(env.copy(), Ty::ApplyPerm(Perm::Rf(one), Box::new(base)))
        },
        Access::Mt => {
            let p = Parameter::Ty(tp.copy());
            if prove_is_move(env, &p, fuel) {
                let (_, base) = split_perm_ty(&tp);
                Typing::Typed(env.copy(), Ty::ApplyPerm(Perm::Mt(one), Box::new(base)))
            } else {
                Typing::Fails
            }
        },
        Access::Gv => match move_place(env, live_after, place, &tp, fuel) {
            Some(e1) => Typing::Typed(e1, tp),
            None => Typing::Fails,
        },
        Access::Drop => match move_place(env, live_after, place, &tp, fuel) {
            Some(e1) => Typing::Typed(e1, unit_ty_exec()),
            None => Typing::Fails,
        },
    }
}

/// Types `e` as a value of type `ty` (see [`expr_as_typing`]).
pub fn type_expr_as(env: &Env, live_after: &LivePlaces, e: &Expr, ty: &Ty, fuel: usize) -> (r: Typing)
    ensures
        r@ == expr_as_typing(env@, live_after@, e@, ty@, fuel as nat),
    decreases e, 1nat, 0nat,
{
    if matches!(e, Expr::Panic) {
        return Typing::Typed(env.copy(), ty.copy());
    }
    match type_expr(env, live_after, e, fuel) {
        Typing::Typed(e1, t) => {
            let a = Parameter::Ty(t);
            let b = Parameter::Ty(ty.copy());
            if crate::subtypes::sub(&e1, live_after, &a, &b, fuel) {
                Typing::Typed(e1, ty.copy())
            } else {
                Typing::Fails
            }
        },
        Typing::Fails => Typing::Fails,
        Typing::Unsupported => Typing::Unsupported,
    }
}

/// Whether `e` can be typed as a value of type `ty`: `None` when the rules
/// do not cover it.
pub fn can_type_expr_as(env: &Env, live_after: &LivePlaces, e: &Expr, ty: &Ty, fuel: usize) -> (r: Option<bool>)
    ensures
        r == match expr_as_typing(env@, live_after@, e@, ty@, fuel as nat) {
            STyping::Typed(_, _) => Some(true),
            STyping::Fails => Some(false),
            STyping::Unsupported => None::<bool>,
        },
{
    match type_expr_as(env, live_after, e, ty, fuel) {
        Typing::Typed(_, _) => Some(true),
        Typing::Fails => Some(false),
        Typing::Unsupported => None,
    }
}

/// Types the expressions of `es` from position `i` on.
fn type_exprs_from(env: &Env, live_after: &LivePlaces, es: &Vec<Expr>, i: usize, fuel: usize) -> (r: Typings)
    requires
        i <= es@.len(),
    ensures
        r@ == exprs_typing(env@, live_after@, exprs_view(es@).subrange(i as int, es@.len() as int), fuel as nat),
    decreases es, 0nat, es@.len() - i,
{
    proof {
        lemma_exprs_view(es@);
    }
    let ghost s = exprs_view(es@).subrange(i as int, es@.len() as int);
    if i == es.len() {
        assert(s.len() == 0);
        let r = Typings::Typed(env.copy(), Vec::new());
        assert(r@ == STypings::Typed(env@, Seq::<STy>::empty())) by {
            assert(Seq::<Ty>::empty().map_values(|t: Ty| t@) =~= Seq::<STy>::empty());
        }
        return r;
    }
    let rest = suffix_exprs(es, i + 1);
    let lh = adjust_exprs(&rest, live_after.copy());
    assert(s[0] == es@[i as int]@);
    assert(s.subrange(1, s.len() as int) =~= exprs_view(rest@));
    match type_expr(env, &lh, &es[i], fuel) {
        Typing::Typed(e1, t) => {
            assert(exprs_view(es@).subrange((i + 1) as int, es@.len() as int) =~= exprs_view(rest@));
            match type_exprs_from(&e1, live_after, es, i + 1, fuel) {
                Typings::Typed(e2, ts) => {
                    let ghost tv = t@;
                    let ghost old_ts = ts@.map_values(|x: Ty| x@);
                    let mut ts = ts;
                    ts.insert(0, t);
                    assert(ts@.map_values(|x: Ty| x@) =~= seq![tv] + old_ts);
                    Typings::Typed(e2, ts)
                },
                Typings::Fails => Typings::Fails,
                Typings::Unsupported => Typings::Unsupported,
            }
        },
        Typing::Fails => Typings::Fails,
        Typing::Unsupported => Typings::Unsupported,
    }
}

/// Types the expressions of `es` left to right (see [`exprs_typing`]).
pub fn type_exprs(env: &Env, live_after: &LivePlaces, es: &Vec<Expr>, fuel: usize) -> (r: Typings)
    ensures
        r@ == exprs_typing(env@, live_after@, exprs_view(es@), fuel as nat),
    decreases es, 0nat, es@.len() + 1,
{
    proof {
        lemma_exprs_view(es@);
        assert(exprs_view(es@).subrange(0, es@.len() as int) =~= exprs_view(es@));
    }
    type_exprs_from(env, live_after, es, 0, fuel)
}

/// Types one statement (see [`stmt_typing`]).
fn type_statement(env: &Env, live_after: &LivePlaces, st: &Statement, fuel: usize) -> (r: Typing)
    ensures
        r@ == stmt_typing(env@, live_after@, st@, fuel as nat),
    decreases st, 0nat, 0nat,
{
    match st {
        Statement::Expr(e) => match type_expr(env, live_after, e, fuel) {
            Typing::Typed(e1, t) => drop_temp(e1, live_after, t, fuel),
            Typing::Fails => Typing::Fails,
            Typing::Unsupported => Typing::Unsupported,
        },
        Statement::Let(id, asc, e) => {
            let x = Var::Id(id.copy());
            let place = Place::from_var(x.copy());
            let live_e = live_after.copy().overwritten(&place);
            let r = match asc {
                Ascription::NoTy => type_expr(env, &live_e, e, fuel),
                Ascription::Ty(t) => type_expr_as(env, &live_e, e, t, fuel),
            };
            match r {
                Typing::Typed(e1, ty) => {
                    let mut e2 = e1;
                    match e2.push_local_variable(x, ty) {
                        Ok(()) => {},
                        Err(_) => return Typing::Fails,
                    }
                    let e3 = e2.with_in_flight_stored_to(&place);
                    Typing::Typed(e3, unit_ty_exec())
                },
                Typing::Fails => Typing::Fails,
                Typing::Unsupported => Typing::Unsupported,
            }
        },
        Statement::Reassign(place, e) => match env.owner_and_field_ty(place) {
            Err(_) => Typing::Fails,
            Ok((owner, field_ty)) => {
                let live_e = live_after.copy().overwritten(place);
                match type_expr_as(env, &live_e, e, &field_ty, fuel) {
                    Typing::Typed(e1, _) => reassign(e1, live_after, place, owner, field_ty, fuel),
                    Typing::Fails => Typing::Fails,
                    Typing::Unsupported => Typing::Unsupported,
                }
            },
        },
        _ => Typing::Fails,
    }
}

/// Stores the value of an assignment into `place` (see [`reassigned`]).
fn reassign(env: Env, live_after: &LivePlaces, place: &Place, owner: Option<Ty>, field_ty: Ty, fuel: usize) -> (r: Typing)
    ensures
        r@ == reassigned(env@, live_after@, place@, match owner { Some(t) => Some(t@), None => None }, field_ty@, fuel as nat),
{
    let n = env.fresh();
    let temp = Var::Fresh(n);
    if env.has_local(&temp) || n == usize::MAX {
        return Typing::Unsupported;
    }
    let (e2, var) = env.push_fresh_variable_with_in_flight(field_ty.copy());
    assert(e2@ == transform_env(pushed_fresh(env@, field_ty@), put_one(SVar::InFlight, var_place(SVar::Fresh(n)))));
    if !live_vars_are_locals(&e2, live_after) {
        return Typing::Unsupported;
    }
    let owner_ok = match &owner {
        Some(ot) => {
            let p = Parameter::Ty(ot.copy());
            prove_is_move(&e2, &p, fuel)
        },
        None => true,
    };
    if !owner_ok || !env_permits_access(&e2, live_after, Access::Mt, place, fuel) {
        return Typing::Fails;
    }
    let e3 = e2.with_var_stored_to(&var, place);
    assert(e2@.local_variables.dom().contains(SVar::Fresh(n)));
    assert(e3@.local_variables.dom() == e2@.local_variables.dom());
    let e4 = e3.pop_fresh_variable(&var);
    Typing::Typed(e4, unit_ty_exec())
}

/// The variables the `let` statements among `ss` introduce (see
/// [`let_vars`]).
fn let_vars_exec(ss: &Vec<Statement>) -> (r: Vec<Var>)
    ensures
        vars_view(r@) == let_vars(statements_view(ss@)),
{
    proof {
        lemma_statements_view(ss@);
    }
    let ghost sv = statements_view(ss@);
    let mut r: Vec<Var> = Vec::new();
    let mut i: usize = 0;
    while i < ss.len()
        invariant
            i <= ss@.len(),
            sv.len() == ss@.len(),
            forall|j: int| 0 <= j < sv.len() ==> #[trigger] sv[j] == ss@[j]@,
            vars_view(r@) == let_vars(sv.subrange(0, i as int)),
        decreases ss.len() - i,
    {
        proof {
            assert(sv.subrange(0, i + 1).drop_last() =~= sv.subrange(0, i as int));
            assert(sv.subrange(0, i + 1).last() == ss@[i as int]@);
        }
        match &ss[i] {
            Statement::Let(id, _, _) => {
                r.push(Var::Id(id.copy()));
            },
            _ => {},
        }
        proof {
            assert(vars_view(r@) =~= let_vars(sv.subrange(0, i + 1)));
        }
        i = i + 1;
    }
    assert(sv.subrange(0, sv.len() as int) =~= sv);
    r
}

/// True if a permission in the type `t` mentions a place rooted in one of
/// `vars` (see [`param_refs`]).
fn ty_references_vars(t: &Ty, vars: &[Var]) -> (r: bool)
    ensures
        r == param_refs(SParameter::Ty(t@), vars_view(vars@)),
    decreases t, 1nat, 0nat,
{
    match t {
        Ty::NamedTy(n) => {
            proof {
                lemma_parameters_view(n.parameters@);
                assert(parameters_view(n.parameters@).subrange(0, n.parameters@.len() as int) =~= parameters_view(n.parameters@));
            }
            params_reference_vars_from(&n.parameters, 0, vars)
        },
        Ty::Var(_) => false,
        Ty::ApplyPerm(p, inner) => perm_references_vars(p, vars) || ty_references_vars(inner, vars),
    }
}

fn params_reference_vars_from(ps: &Vec<Parameter>, i: usize, vars: &[Var]) -> (r: bool)
    requires
        i <= ps@.len(),
    ensures
        r == params_refs(parameters_view(ps@).subrange(i as int, ps@.len() as int), vars_view(vars@)),
    decreases ps, 0nat, ps@.len() - i,
{
    proof {
        lemma_parameters_view(ps@);
    }
    let ghost s = parameters_view(ps@).subrange(i as int, ps@.len() as int);
    if i == ps.len() {
        assert(s.len() == 0);
        return false;
    }
    assert(s[0] == ps@[i as int]@);
    assert(s.subrange(1, s.len() as int) =~= parameters_view(ps@).subrange(i + 1, ps@.len() as int));
    let here = match &ps[i] {
        Parameter::Perm(p) => {
            let h = perm_references_vars(p, vars);
            assert(h == param_refs(SParameter::Perm(p@), vars_view(vars@)));
            h
        },
        Parameter::Ty(t) => ty_references_vars(t, vars),
    };
    assert(here == param_refs(s[0], vars_view(vars@)));
    let rest = params_reference_vars_from(ps, i + 1, vars);
    assert(params_refs(s, vars_view(vars@)) == (param_refs(s[0], vars_view(vars@)) || params_refs(s.subrange(1, s.len() as int), vars_view(vars@))));
    here || rest
}

/// Types the statements of `ss` from position `i` on, `ty` being the type
/// so far.
#[verifier::spinoff_prover]
#[verifier::rlimit(40)]
fn type_statements_from(env: &Env, live_after: &LivePlaces, ss: &Vec<Statement>, i: usize, ty: Ty, fuel: usize) -> (r: Typing)
    requires
        i <= ss@.len(),
    ensures
        r@ == stmts_typing(env@, live_after@, statements_view(ss@).subrange(i as int, ss@.len() as int), ty@, fuel as nat),
    decreases ss, 0nat, ss@.len() - i,
{
    proof {
        lemma_statements_view(ss@);
    }
    let ghost s = statements_view(ss@).subrange(i as int, ss@.len() as int);
    if i == ss.len() {
        assert(s.len() == 0);
        return Typing::Typed(env.copy(), ty);
    }
    let rest = suffix_statements(ss, i + 1);
    let ls = adjust_statements(&rest, live_after.copy());
    assert(s[0] == ss@[i as int]@);
    assert(s.subrange(1, s.len() as int) =~= statements_view(rest@));
    match type_statement(env, &ls, &ss[i], fuel) {
        Typing::Typed(e1, t) => {
            assert(statements_view(ss@).subrange((i + 1) as int, ss@.len() as int) =~= statements_view(rest@));
            type_statements_from(&e1, live_after, ss, i + 1, t, fuel)
        },
        Typing::Fails => Typing::Fails,
        Typing::Unsupported => Typing::Unsupported,
    }
}

/// Types statements in turn, starting from `()` (see [`stmts_typing`]).
pub fn type_statements(env: &Env, live_after: &LivePlaces, ss: &Vec<Statement>, fuel: usize) -> (r: Typing)
    ensures
        r@ == stmts_typing(env@, live_after@, statements_view(ss@), unit_ty(), fuel as nat),
    decreases ss, 0nat, ss@.len() + 1,
{
    proof {
        lemma_statements_view(ss@);
        assert(statements_view(ss@).subrange(0, ss@.len() as int) =~= statements_view(ss@));
    }
    type_statements_from(env, live_after, ss, 0, unit_ty_exec(), fuel)
}

/// Types a block (see [`block_typing`]).
pub fn type_block(env: &Env, live_after: &LivePlaces, b: &Block, fuel: usize) -> (r: Typing)
    ensures
        r@ == block_typing(env@, live_after@, b@, fuel as nat),
    decreases b, 0nat, 0nat,
{
    match type_statements(env, live_after, &b.statements, fuel) {
        Typing::Typed(e1, ty) => {
            let vars = let_vars_exec(&b.statements);
            if ty_references_vars(&ty, vars.as_slice()) {
                return Typing::Unsupported;
            }
            let mut e2 = e1;
            match e2.pop_local_variables(&vars) {
                Ok(()) => Typing::Typed(e2, ty),
                Err(_) => Typing::Fails,
            }
        },
        Typing::Fails => Typing::Fails,
        Typing::Unsupported => Typing::Unsupported,
    }
}

/// An expression statement introduces no variable that outlives it: after
/// its value is dropped, the local variables and the count of fresh
/// temporaries are those before it.
pub proof fn law_expression_statement_keeps_locals(env: SEnv, l: SLivePlaces, ty: STy, fuel: nat)
    ensures
        temp_dropped(env, l, ty, fuel) matches STyping::Typed(e2, _) ==> {
            &&& e2.local_variables.dom() == env.local_variables.dom()
            &&& e2.fresh == env.fresh
        },
{
    let temp = SVar::Fresh(env.fresh);
    if !env.local_variables.dom().contains(temp) && env.fresh < usize::MAX {
        let e2 = transform_env(pushed_fresh(env, ty), put_one(SVar::InFlight, var_place(temp)));
        assert(e2.local_variables.dom() == env.local_variables.dom().insert(temp));
        assert(popped_fresh(e2).local_variables.dom() =~= env.local_variables.dom());
    }
}

/// `Int` is a subtype of itself, whatever the fuel.
proof fn lemma_int_sub_int(env: SEnv, l: SLivePlaces, fuel: nat)
    ensures
        sub_rel(env, l, SParameter::Ty(int_ty()), SParameter::Ty(int_ty()), fuel),
{
    assert(perm_ty_parts(int_ty()) == (SPerm::Given, int_ty()));
    assert(crate::subtypes::sub_applied_all(env, l, SPerm::Given, Seq::empty(), SPerm::Given, Seq::empty(), fuel));
}

/// A binary operation, whatever its operands, has type `Int` when its
/// operator is `+`, `-`, `*` or `/`, and type `Bool` when it is `==`, `<`,
/// `<=`, `>` or `>=`.
pub proof fn law_binary_operation_types(env: SEnv, l: SLivePlaces, lhs: SExpr, op: BinaryOp, rhs: SExpr, fuel: nat)
    ensures
        expr_typing(env, l, SExpr::BinaryOp(Box::new(lhs), op, Box::new(rhs)), fuel) matches STyping::Typed(_, t) ==> {
            &&& (op == BinaryOp::Add || op == BinaryOp::Sub || op == BinaryOp::Mul || op == BinaryOp::Div) ==> t == int_ty()
            &&& (op == BinaryOp::EqEq || op == BinaryOp::Lt || op == BinaryOp::Le || op == BinaryOp::Gt || op == BinaryOp::Ge) ==> t == bool_ty()
        },
{
}

/// On two integer literals every operator is typed, leaving the environment
/// as it was: arithmetic gives `Int`, comparison gives `Bool`.
pub proof fn law_literal_operations_are_typed(env: SEnv, l: SLivePlaces, a: usize, op: BinaryOp, b: usize, fuel: nat)
    ensures
        expr_typing(env, l, SExpr::BinaryOp(Box::new(SExpr::Integer(a)), op, Box::new(SExpr::Integer(b))), fuel)
            == STyping::Typed(env, if op == BinaryOp::Add || op == BinaryOp::Sub || op == BinaryOp::Mul || op == BinaryOp::Div { int_ty() } else { bool_ty() }),
{
    let l1 = live_before_expr(SExpr::Integer(b), l);
    lemma_int_sub_int(env, l1, fuel);
    lemma_int_sub_int(env, l, fuel);
    assert(expr_as_typing(env, l1, SExpr::Integer(a), int_ty(), fuel) == STyping::Typed(env, int_ty()));
    assert(expr_as_typing(env, l, SExpr::Integer(b), int_ty(), fuel) == STyping::Typed(env, int_ty()));
}

/// An operand that cannot be an integer makes the operation fail: `true`
/// and `false` are never operands of arithmetic or comparison.
pub proof fn law_boolean_operands_fail(env: SEnv, l: SLivePlaces, op: BinaryOp, rhs: SExpr, fuel: nat)
    ensures
        expr_typing(env, l, SExpr::BinaryOp(Box::new(SExpr::True), op, Box::new(rhs)), fuel) == STyping::Fails,
{
    let l1 = live_before_expr(rhs, l);
    assert(perm_ty_parts(bool_ty()) == (SPerm::Given, bool_ty()));
    assert(perm_ty_parts(int_ty()) == (SPerm::Given, int_ty()));
    assert(!sub_rel(env, l1, SParameter::Ty(bool_ty()), SParameter::Ty(int_ty()), fuel));
    assert(expr_typing(env, l1, SExpr::True, fuel) == STyping::Typed(env, bool_ty()));
    assert(expr_as_typing(env, l1, SExpr::True, int_ty(), fuel) == STyping::Fails);
}

/// What each kind of expression gives, whatever the environment: literals
/// and `size_of` are typed without changing the environment, as `Int` or
/// `Bool`; `clear` and a bare `panic` have no type; `if` has type `()`;
/// `share` gives a `shared` type; `is_last_ref` gives `Bool`.
pub proof fn law_expression_kinds(env: SEnv, l: SLivePlaces, e: SExpr, fuel: nat)
    ensures
        e is Integer ==> expr_typing(env, l, e, fuel) == STyping::Typed(env, STy::NamedTy(SNamedTy { name: STypeName::Int, parameters: Seq::empty() })),
        e is SizeOf ==> expr_typing(env, l, e, fuel) == STyping::Typed(env, STy::NamedTy(SNamedTy { name: STypeName::Int, parameters: Seq::empty() })),
        (e is True || e is False) ==> expr_typing(env, l, e, fuel) == STyping::Typed(env, STy::NamedTy(SNamedTy { name: STypeName::Bool, parameters: Seq::empty() })),
        (e is Clear || e is Panic) ==> expr_typing(env, l, e, fuel) == STyping::Fails,
        e is If ==> (expr_typing(env, l, e, fuel) matches STyping::Typed(_, t) ==> t == STy::NamedTy(SNamedTy { name: STypeName::Tuple(0), parameters: Seq::empty() })),
        e is IsLastRef ==> (expr_typing(env, l, e, fuel) matches STyping::Typed(_, t) ==> t == STy::NamedTy(SNamedTy { name: STypeName::Bool, parameters: Seq::empty() })),
        e is Share ==> (expr_typing(env, l, e, fuel) matches STyping::Typed(_, t) ==> t matches STy::ApplyPerm(SPerm::Shared, _)),
{
}

/// Typing as a given type yields exactly that type when it succeeds, and a
/// `panic` can be typed as anything, leaving the environment as it was.
pub proof fn law_typing_as_gives_the_expected_type(env: SEnv, l: SLivePlaces, e: SExpr, ty: STy, fuel: nat)
    ensures
        expr_as_typing(env, l, e, ty, fuel) matches STyping::Typed(_, t) ==> t == ty,
        expr_as_typing(env, l, SExpr::Panic, ty, fuel) == STyping::Typed(env, ty),
        !(e is Panic) && (expr_typing(env, l, e, fuel) is Fails) ==> expr_as_typing(env, l, e, ty, fuel) is Fails,
{
}

proof fn lemma_exprs_typing_len(env: SEnv, l: SLivePlaces, es: Seq<SExpr>, fuel: nat)
    ensures
        exprs_typing(env, l, es, fuel) matches STypings::Typed(_, ts) ==> ts.len() == es.len(),
    decreases es.len(),
{
    if es.len() > 0 {
        let rest = es.subrange(1, es.len() as int);
        match expr_typing(env, live_before_exprs(rest, l), es[0], fuel) {
            STyping::Typed(e1, _) => lemma_exprs_typing_len(e1, l, rest, fuel),
            _ => {},
        }
    }
}

/// A typed tuple of `n` expressions has the tuple type with `n` components.
pub proof fn law_tuple_type_has_one_component_per_expression(env: SEnv, l: SLivePlaces, es: Seq<SExpr>, fuel: nat)
    ensures
        expr_typing(env, l, SExpr::Tuple(es), fuel) matches STyping::Typed(_, t) ==> (t matches STy::NamedTy(n)
            && n.name == STypeName::Tuple(es.len() as usize) && n.parameters.len() == es.len()),
{
    lemma_exprs_typing_len(env, l, es, fuel);
}

/// Accessing a place: a reference leaves the environment as it was and has
/// type `ref[place]` over the place's type stripped of its permissions; a
/// lease likewise has type `mut[place]`; dropping has type `()`; giving a
/// place still live afterwards leaves the environment as it was.
pub proof fn law_place_access_results(env: SEnv, l: SLivePlaces, place: SPlace, fuel: nat)
    ensures
        place_typing(env, l, Access::Rf, place, fuel) matches STyping::Typed(e1, t) ==> e1 == env
            && place_ty_of(env, place) is Ok
            && t == STy::ApplyPerm(SPerm::Rf(set![place]), Box::new(perm_ty_parts(place_ty_of(env, place)->Ok_0).1)),
        place_typing(env, l, Access::Mt, place, fuel) matches STyping::Typed(e1, t) ==> e1 == env
            && place_ty_of(env, place) is Ok
            && t == STy::ApplyPerm(SPerm::Mt(set![place]), Box::new(perm_ty_parts(place_ty_of(env, place)->Ok_0).1)),
        place_typing(env, l, Access::Drop, place, fuel) matches STyping::Typed(_, t) ==> t == STy::NamedTy(SNamedTy { name: STypeName::Tuple(0), parameters: Seq::empty() }),
        crate::liveness::live(l, place) ==> (place_typing(env, l, Access::Gv, place, fuel) matches STyping::Typed(e1, t) ==> e1 == env
            && place_ty_of(env, place) == Ok::<STy, crate::errors::STypeError>(t)
            && provable(env, pp(ParameterPredicate::Copy, SParameter::Ty(t)), fuel)),
        !env_permits(env, l, Access::Gv, place, fuel) && (forall|v| #[trigger] live_vars(l).contains(v) ==> env.local_variables.dom().contains(v))
            ==> place_typing(env, l, Access::Gv, place, fuel) is Fails,
{
}

/// A block with no statements has type `()` and leaves the environment as it was.
pub proof fn law_empty_block(env: SEnv, l: SLivePlaces, fuel: nat)
    ensures
        block_typing(env, l, SBlock { statements: Seq::empty() }, fuel)
            == STyping::Typed(env, STy::NamedTy(SNamedTy { name: STypeName::Tuple(0), parameters: Seq::empty() })),
{
    assert(let_vars(Seq::<SStatement>::empty()) == Seq::<SVar>::empty());
    assert(!param_refs(SParameter::Ty(unit_ty()), Seq::<SVar>::empty())) by {
        assert(params_refs(Seq::<SParameter>::empty(), Seq::<SVar>::empty()) == false);
    }
    assert(pop_vars(env.local_variables, Seq::<SVar>::empty()) == (env.local_variables, None::<SVar>));
}

proof fn lemma_pop_vars_removes(m: Map<SVar, STy>, vars: Seq<SVar>)
    ensures
        pop_vars(m, vars).1 is None ==> forall|i: int| 0 <= i < vars.len() ==> !pop_vars(m, vars).0.dom().contains(#[trigger] vars[i]),
        pop_vars(m, vars).0.dom().subset_of(m.dom()),
    decreases vars.len(),
{
    if vars.len() > 0 && m.dom().contains(vars[0]) {
        let rest = vars.subrange(1, vars.len() as int);
        lemma_pop_vars_removes(m.remove(vars[0]), rest);
        if pop_vars(m, vars).1 is None {
            assert forall|i: int| 0 <= i < vars.len() implies !pop_vars(m, vars).0.dom().contains(#[trigger] vars[i]) by {
                if i > 0 {
                    assert(rest[i - 1] == vars[i]);
                }
            }
        }
    }
}

proof fn lemma_let_vars_contains(ss: Seq<SStatement>, i: int)
    requires
        0 <= i < ss.len(),
        ss[i] is Let,
    ensures
        let_vars(ss).contains(SVar::Id(ss[i]->Let_0)),
    decreases ss.len(),
{
    if i < ss.len() - 1 {
        lemma_let_vars_contains(ss.drop_last(), i);
        let p = let_vars(ss.drop_last());
        let k = choose|k: int| 0 <= k < p.len() && p[k] == SVar::Id(ss[i]->Let_0);
        match ss.last() {
            SStatement::Let(id, _, _) => assert(p.push(SVar::Id(id))[k] == SVar::Id(ss[i]->Let_0)),
            _ => {},
        }
    } else {
        assert(let_vars(ss).last() == SVar::Id(ss[i]->Let_0));
    }
}

/// A typed block leaves behind none of the variables its own `let`
/// statements introduce, and no variable that was not there when its last
/// statement finished.
pub proof fn law_block_pops_its_lets(env: SEnv, l: SLivePlaces, b: SBlock, fuel: nat)
    ensures
        block_typing(env, l, b, fuel) matches STyping::Typed(e2, _) ==> forall|i: int| 0 <= i < b.statements.len() && (#[trigger] b.statements[i]) is Let
            ==> !e2.local_variables.dom().contains(SVar::Id(b.statements[i]->Let_0)),
{
    match stmts_typing(env, l, b.statements, unit_ty(), fuel) {
        STyping::Typed(e1, ty) => {
            let vars = let_vars(b.statements);
            lemma_pop_vars_removes(e1.local_variables, vars);
            if pop_vars(e1.local_variables, vars).1 is None {
                assert forall|i: int| 0 <= i < b.statements.len() && (#[trigger] b.statements[i]) is Let implies
                    !pop_vars(e1.local_variables, vars).0.dom().contains(SVar::Id(b.statements[i]->Let_0)) by {
                    lemma_let_vars_contains(b.statements, i);
                    let k = choose|k: int| 0 <= k < vars.len() && vars[k] == SVar::Id(b.statements[i]->Let_0);
                    assert(!pop_vars(e1.local_variables, vars).0.dom().contains(vars[k]));
                }
            }
        },
        _ => {},
    }
}

} // verus!
