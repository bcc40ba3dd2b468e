//! Whether a parameter is copy, or moved, in an environment: the structural
//! questions the environment answers by walking a type or permission.
//!
//! A type is copy if some part of it makes it copy (a shared permission, a
//! borrow of a place whose type is copy, a variable assumed copy); it is
//! moved if every part of it is moved. Places are answered by looking up
//! their types, and each lookup spends one unit of fuel.
use vstd::prelude::*;

use crate::env::{is_value_name, var_predicate, Env, SEnv};
use crate::errors::{STypeError, TypeError};
use crate::grammar::{
    parameters_view, perms_view, place_set, lemma_parameters_view, lemma_perms_view,
    lemma_place_set_contains, NamedTy, Parameter, ParameterPredicate, Perm, Place, SParameter,
    SPerm, SPlace, STy, Ty, Variable,
};
use crate::places::place_ty_of;
use crate::predicates::{lemma_param_size_pos, param_size, params_size, perm_size, perms_size, ty_param};

verus! {

/// What asking the environment a copy or moved question comes to.
pub enum Answer {
    /// The question was answered.
    Is(bool),
    /// Looking up the type of a place failed, or the fuel ran out.
    Fails(STypeError),
    /// The walk reached a variable that is neither in scope nor universal,
    /// which no well-formed environment holds.
    Stuck,
}

pub open spec fn answer_of(r: Result<bool, TypeError>) -> Answer {
    match r {
        Ok(b) => Answer::Is(b),
        Err(e) => Answer::Fails(e@),
    }
}

/// The questions answered here: `Copy` (some part makes the parameter copy)
/// and `Move` (every part of the parameter is moved).
pub open spec fn is_query(k: ParameterPredicate) -> bool {
    k == ParameterPredicate::Copy || k == ParameterPredicate::Move
}

/// The answer that lets the walk go on: `false` for copy (it looks for a part
/// that is copy), `true` for moved (it checks that every part is moved).
pub open spec fn neutral(k: ParameterPredicate) -> bool {
    k == ParameterPredicate::Move
}

pub proof fn lemma_perms_size_front(ps: Seq<SPerm>)
    requires
        ps.len() > 0,
    ensures
        perms_size(ps) == perm_size(ps[0]) + perms_size(ps.subrange(1, ps.len() as int)),
    decreases ps.len(),
{
    let rest = ps.subrange(1, ps.len() as int);
    if ps.len() == 1 {
        assert(ps.drop_last() =~= Seq::<SPerm>::empty());
        assert(rest =~= Seq::<SPerm>::empty());
    } else {
        let d = ps.drop_last();
        lemma_perms_size_front(d);
        assert(d[0] == ps[0]);
        assert(d.subrange(1, d.len() as int) =~= rest.drop_last());
        assert(rest.last() == ps.last());
    }
}

/// `r` is a possible answer to question `k` about `p`, with `fuel` place
/// lookups at most on any path. Where the parameter mentions a set of
/// places, the answer is that of the first place (in some order) whose
/// answer is not the neutral one.
pub open spec fn answer_rel(env: SEnv, k: ParameterPredicate, p: SParameter, fuel: nat, r: Answer) -> bool
    decreases fuel, 2 * param_size(p),
{
    let all = neutral(k);
    match p {
        SParameter::Ty(t) => match t {
            STy::NamedTy(n) => if is_value_name(n.name) {
                params_rel(env, k, n.parameters, fuel, r)
            } else {
                r == Answer::Is(false)
            },
            STy::Var(Variable::UniversalVar(v)) => r == Answer::Is(env.assumptions.contains(var_predicate(v, k))),
            STy::Var(_) => r == Answer::Stuck,
            STy::ApplyPerm(q, inner) => {
                ||| answer_rel(env, k, SParameter::Perm(q), fuel, Answer::Is(all))
                    && answer_rel(env, k, SParameter::Ty(*inner), fuel, r)
                ||| r != Answer::Is(all) && answer_rel(env, k, SParameter::Perm(q), fuel, r)
            },
        },
        SParameter::Perm(q) => match q {
            SPerm::Given => r == Answer::Is(all),
            SPerm::Shared => r == Answer::Is(!all),
            SPerm::Rf(_) => r == Answer::Is(!all),
            SPerm::Mv(s) => places_rel(env, k, s, fuel, r),
            SPerm::Mt(s) => places_rel(env, k, s, fuel, r),
            SPerm::Var(Variable::UniversalVar(v)) => r == Answer::Is(env.assumptions.contains(var_predicate(v, k))),
            SPerm::Var(_) => r == Answer::Stuck,
            SPerm::Apply(l, rr) => {
                ||| answer_rel(env, k, SParameter::Perm(*l), fuel, Answer::Is(all))
                    && answer_rel(env, k, SParameter::Perm(*rr), fuel, r)
                ||| r != Answer::Is(all) && answer_rel(env, k, SParameter::Perm(*l), fuel, r)
            },
            SPerm::Or(ps) => perms_rel(env, k, ps, fuel, r),
        },
    }
}

/// The answer for a list of generic arguments, taken in order: the first
/// answer that is not the neutral one, or the neutral one.
pub open spec fn params_rel(env: SEnv, k: ParameterPredicate, ps: Seq<SParameter>, fuel: nat, r: Answer) -> bool
    decreases fuel, 2 * params_size(ps) + 1,
{
    if ps.len() == 0 {
        r == Answer::Is(neutral(k))
    } else {
        proof {
            lemma_param_size_pos(ps[0]);
        }
        ||| answer_rel(env, k, ps[0], fuel, Answer::Is(neutral(k)))
            && params_rel(env, k, ps.subrange(1, ps.len() as int), fuel, r)
        ||| r != Answer::Is(neutral(k)) && answer_rel(env, k, ps[0], fuel, r)
    }
}

/// The answer for `Or` of permissions, taken in order: the first answer
/// other than `false`, or `false`.
pub open spec fn perms_rel(env: SEnv, k: ParameterPredicate, ps: Seq<SPerm>, fuel: nat, r: Answer) -> bool
    decreases fuel, 2 * perms_size(ps) + 1,
{
    if ps.len() == 0 {
        r == Answer::Is(false)
    } else {
        proof {
            lemma_perms_size_front(ps);
            lemma_param_size_pos(SParameter::Perm(ps[0]));
        }
        ||| answer_rel(env, k, SParameter::Perm(ps[0]), fuel, Answer::Is(false))
            && perms_rel(env, k, ps.subrange(1, ps.len() as int), fuel, r)
        ||| r != Answer::Is(false) && answer_rel(env, k, SParameter::Perm(ps[0]), fuel, r)
    }
}

/// The answer for one place: its type looked up, then asked about with one
/// less unit of fuel.
pub open spec fn place_rel(env: SEnv, k: ParameterPredicate, q: SPlace, fuel: nat, r: Answer) -> bool
    decreases fuel, 0nat,
{
    if fuel == 0 {
        r == Answer::Fails(STypeError::OutOfFuel)
    } else {
        match place_ty_of(env, q) {
            Err(e) => r == Answer::Fails(e),
            Ok(t) => answer_rel(env, k, ty_param(t), (fuel - 1) as nat, r),
        }
    }
}

/// The answer for a set of places: the neutral one if every place gives
/// it, else the answer of some place that does not.
pub open spec fn places_rel(env: SEnv, k: ParameterPredicate, s: Set<SPlace>, fuel: nat, r: Answer) -> bool
    decreases fuel, 1nat,
{
    ||| (forall|q: SPlace| #[trigger] s.contains(q) ==> place_rel(env, k, q, fuel, Answer::Is(neutral(k))))
        && r == Answer::Is(neutral(k))
    ||| exists|q: SPlace| #[trigger] s.contains(q) && place_rel(env, k, q, fuel, r) && r != Answer::Is(neutral(k))
}

impl Env {
    /// Answers question `k` (copy or moved) about `p`.
    fn answer(&self, k: ParameterPredicate, p: &Parameter, fuel: usize) -> (r: Result<bool, TypeError>)
        requires
            is_query(k),
            !answer_rel(self@, k, p@, fuel as nat, Answer::Stuck),
        ensures
            answer_rel(self@, k, p@, fuel as nat, answer_of(r)),
        decreases fuel, 2 * param_size(p@),
    {
        let all = k == ParameterPredicate::Move;
        let ghost e = self@;
        let ghost f = fuel as nat;
        match p {
            Parameter::Ty(t) => match t {
                Ty::NamedTy(n) => {
                    assert(p@ == SParameter::Ty(STy::NamedTy(n@)));
                    if self.is_value_ty(&n.name) {
                        proof {
                            lemma_parameters_view(n.parameters@);
                            let pv = parameters_view(n.parameters@);
                            assert(pv.subrange(0, pv.len() as int) =~= pv);
                        }
                        self.params_answer(k, &n.parameters, 0, fuel)
                    } else {
                        Ok(false)
                    }
                },
                Ty::Var(v) => match v {
                    Variable::UniversalVar(u) => Ok(self.is(u, k)),
                    _ => {
                        assert(answer_rel(e, k, p@, f, Answer::Stuck));
                        Ok(false)
                    },
                },
                Ty::ApplyPerm(q, inner) => {
                    let qp = Parameter::Perm(q.copy());
                    let tp = Parameter::Ty((**inner).copy());
                    assert(p@ == SParameter::Ty(STy::ApplyPerm(q@, Box::new(inner@))));
                    assert(qp@ == SParameter::Perm(q@));
                    assert(tp@ == SParameter::Ty(inner@));
                    proof {
                        if answer_rel(e, k, qp@, f, Answer::Stuck) {
                            assert(answer_rel(e, k, p@, f, Answer::Stuck));
                        }
                    }
                    let a = self.answer(k, &qp, fuel);
                    let go_on = match &a {
                        Ok(b) => *b == all,
                        Err(_) => false,
                    };
                    if !go_on {
                        assert(answer_rel(e, k, qp@, f, answer_of(a)));
                        return a;
                    }
                    proof {
                        if answer_rel(e, k, tp@, f, Answer::Stuck) {
                            assert(answer_rel(e, k, qp@, f, answer_of(a)));
                            assert(answer_rel(e, k, p@, f, Answer::Stuck));
                        }
                    }
                    let r = self.answer(k, &tp, fuel);
                    assert(answer_rel(e, k, qp@, f, answer_of(a)));
                    r
                },
            },
            Parameter::Perm(q) => match q {
                Perm::Given => Ok(all),
                Perm::Shared => Ok(!all),
                Perm::Rf(_) => Ok(!all),
                Perm::Mv(s) => self.places_answer(k, s, fuel),
                Perm::Mt(s) => self.places_answer(k, s, fuel),
                Perm::Var(v) => match v {
                    Variable::UniversalVar(u) => Ok(self.is(u, k)),
                    _ => {
                        assert(answer_rel(e, k, p@, f, Answer::Stuck));
                        Ok(false)
                    },
                },
                Perm::Apply(l, rr) => {
                    let lp = Parameter::Perm((**l).copy());
                    let rp = Parameter::Perm((**rr).copy());
                    assert(p@ == SParameter::Perm(SPerm::Apply(Box::new(l@), Box::new(rr@))));
                    assert(lp@ == SParameter::Perm(l@));
                    assert(rp@ == SParameter::Perm(rr@));
                    proof {
                        if answer_rel(e, k, lp@, f, Answer::Stuck) {
                            assert(answer_rel(e, k, p@, f, Answer::Stuck));
                        }
                    }
                    let a = self.answer(k, &lp, fuel);
                    let go_on = match &a {
                        Ok(b) => *b == all,
                        Err(_) => false,
                    };
                    if !go_on {
                        assert(answer_rel(e, k, lp@, f, answer_of(a)));
                        return a;
                    }
                    proof {
                        if answer_rel(e, k, rp@, f, Answer::Stuck) {
                            assert(answer_rel(e, k, lp@, f, answer_of(a)));
                            assert(answer_rel(e, k, p@, f, Answer::Stuck));
                        }
                    }
                    let r = self.answer(k, &rp, fuel);
                    assert(answer_rel(e, k, lp@, f, answer_of(a)));
                    r
                },
                Perm::Or(ps) => {
                    assert(p@ == SParameter::Perm(SPerm::Or(perms_view(ps@))));
                    proof {
                        lemma_perms_view(ps@);
                        let pv = perms_view(ps@);
                        assert(pv.subrange(0, pv.len() as int) =~= pv);
                    }
                    self.perms_answer(k, ps, 0, fuel)
                },
            },
        }
    }

    /// The answer for the generic arguments `ps[i..]`, in order.
    fn params_answer(&self, k: ParameterPredicate, ps: &Vec<Parameter>, i: usize, fuel: usize) -> (r: Result<bool, TypeError>)
        requires
            is_query(k),
            i <= ps@.len(),
            !params_rel(self@, k, parameters_view(ps@).subrange(i as int, ps@.len() as int), fuel as nat, Answer::Stuck),
        ensures
            params_rel(self@, k, parameters_view(ps@).subrange(i as int, ps@.len() as int), fuel as nat, answer_of(r)),
        decreases fuel, 2 * params_size(parameters_view(ps@).subrange(i as int, ps@.len() as int)) + 1,
    {
        let all = k == ParameterPredicate::Move;
        let ghost e = self@;
        let ghost f = fuel as nat;
        let ghost pv = parameters_view(ps@);
        let ghost sv = pv.subrange(i as int, ps@.len() as int);
        proof {
            lemma_parameters_view(ps@);
        }
        if i == ps.len() {
            return Ok(all);
        }
        proof {
            lemma_param_size_pos(sv[0]);
            assert(sv[0] == ps@[i as int]@);
            assert(sv.subrange(1, sv.len() as int) =~= pv.subrange(i + 1, ps@.len() as int));
        }
        proof {
            if answer_rel(e, k, sv[0], f, Answer::Stuck) {
                assert(params_rel(e, k, sv, f, Answer::Stuck));
            }
        }
        let a = self.answer(k, &ps[i], fuel);
        let go_on = match &a {
            Ok(b) => *b == all,
            Err(_) => false,
        };
        if !go_on {
            assert(answer_rel(e, k, sv[0], f, answer_of(a)));
            return a;
        }
        assert(answer_rel(e, k, sv[0], f, answer_of(a)));
        proof {
            if params_rel(e, k, pv.subrange(i + 1, ps@.len() as int), f, Answer::Stuck) {
                assert(params_rel(e, k, sv, f, Answer::Stuck));
            }
        }
        self.params_answer(k, ps, i + 1, fuel)
    }

    /// The answer for `Or` of the permissions `ps[i..]`, in order.
    fn perms_answer(&self, k: ParameterPredicate, ps: &Vec<Perm>, i: usize, fuel: usize) -> (r: Result<bool, TypeError>)
        requires
            is_query(k),
            i <= ps@.len(),
            !perms_rel(self@, k, perms_view(ps@).subrange(i as int, ps@.len() as int), fuel as nat, Answer::Stuck),
        ensures
            perms_rel(self@, k, perms_view(ps@).subrange(i as int, ps@.len() as int), fuel as nat, answer_of(r)),
        decreases fuel, 2 * perms_size(perms_view(ps@).subrange(i as int, ps@.len() as int)) + 1,
    {
        let ghost e = self@;
        let ghost f = fuel as nat;
        let ghost pv = perms_view(ps@);
        let ghost sv = pv.subrange(i as int, ps@.len() as int);
        proof {
            lemma_perms_view(ps@);
        }
        if i == ps.len() {
            return Ok(false);
        }
        let qp = Parameter::Perm(ps[i].copy());
        proof {
            lemma_perms_size_front(sv);
            lemma_param_size_pos(SParameter::Perm(sv[0]));
            assert(sv[0] == ps@[i as int]@);
            assert(qp@ == SParameter::Perm(sv[0]));
            assert(sv.subrange(1, sv.len() as int) =~= pv.subrange(i + 1, ps@.len() as int));
        }
        proof {
            if answer_rel(e, k, qp@, f, Answer::Stuck) {
                assert(perms_rel(e, k, sv, f, Answer::Stuck));
            }
        }
        let a = self.answer(k, &qp, fuel);
        let go_on = match &a {
            Ok(b) => !*b,
            Err(_) => false,
        };
        if !go_on {
            assert(answer_rel(e, k, qp@, f, answer_of(a)));
            return a;
        }
        assert(answer_rel(e, k, qp@, f, answer_of(a)));
        proof {
            if perms_rel(e, k, pv.subrange(i + 1, ps@.len() as int), f, Answer::Stuck) {
                assert(perms_rel(e, k, sv, f, Answer::Stuck));
            }
        }
        self.perms_answer(k, ps, i + 1, fuel)
    }

    /// The answer for the places `places`, each looked up in turn.
    fn places_answer(&self, k: ParameterPredicate, places: &Vec<Place>, fuel: usize) -> (r: Result<bool, TypeError>)
        requires
            is_query(k),
            !places_rel(self@, k, place_set(places@), fuel as nat, Answer::Stuck),
        ensures
            places_rel(self@, k, place_set(places@), fuel as nat, answer_of(r)),
        decreases fuel, 1nat,
    {
        let all = k == ParameterPredicate::Move;
        let ghost e = self@;
        let ghost f = fuel as nat;
        let ghost s = place_set(places@);
        let mut i: usize = 0;
        while i < places.len()
            invariant
                is_query(k),
                all == neutral(k),
                e == self@,
                f == fuel as nat,
                s == place_set(places@),
                !places_rel(e, k, s, f, Answer::Stuck),
                i <= places@.len(),
                forall|j: int| 0 <= j < i ==> place_rel(e, k, #[trigger] places@[j]@, f, Answer::Is(all)),
            decreases places.len() - i,
        {
            let ghost q = places@[i as int]@;
            proof {
                lemma_place_set_contains(places@, q);
                assert(s.contains(q));
            }
            if fuel == 0 {
                let r: Result<bool, TypeError> = Err(TypeError::OutOfFuel);
                assert(place_rel(e, k, q, f, answer_of(r)));
                return r;
            }
            let r = match self.place_ty(&places[i]) {
                Err(err) => {
                    let r: Result<bool, TypeError> = Err(err);
                    assert(place_rel(e, k, q, f, answer_of(r)));
                    return r;
                },
                Ok(t) => {
                    let tp = Parameter::Ty(t);
                    assert(tp@ == ty_param(t@));
                    proof {
                        if answer_rel(e, k, tp@, (f - 1) as nat, Answer::Stuck) {
                            assert(place_rel(e, k, q, f, Answer::Stuck));
                        }
                    }
                    self.answer(k, &tp, fuel - 1)
                },
            };
            assert(place_rel(e, k, q, f, answer_of(r)));
            let go_on = match &r {
                Ok(b) => *b == all,
                Err(_) => false,
            };
            if !go_on {
                return r;
            }
            i = i + 1;
        }
        proof {
            assert forall|q: SPlace| s.contains(q) implies place_rel(e, k, q, f, Answer::Is(all)) by {
                lemma_place_set_contains(places@, q);
                let j = choose|j: int| 0 <= j < places@.len() && #[trigger] places@[j]@ == q;
                assert(place_rel(e, k, places@[j]@, f, Answer::Is(all)));
            }
        }
        Ok(all)
    }

    /// True if `p` is copy: some part of it (a shared permission, a borrow
    /// of a place whose type is copy, a variable assumed copy, a generic
    /// argument of a value type) makes it copy. Class types are not copy.
    /// Each place whose type is looked up spends a unit of `fuel`; running
    /// out gives `OutOfFuel`, and a failed lookup gives its error.
    pub fn is_copy(&self, p: &Parameter, fuel: usize) -> (r: Result<bool, TypeError>)
        requires
            !answer_rel(self@, ParameterPredicate::Copy, p@, fuel as nat, Answer::Stuck),
        ensures
            answer_rel(self@, ParameterPredicate::Copy, p@, fuel as nat, answer_of(r)),
    {
        self.answer(ParameterPredicate::Copy, p, fuel)
    }

    /// True if `p` is moved: every part of it is (owned permissions, leases
    /// and moves from places whose types are moved, variables assumed
    /// moved, the generic arguments of a value type). Class types are not
    /// moved. Fuel and errors are as for [`Env::is_copy`].
    pub fn is_moved(&self, p: &Parameter, fuel: usize) -> (r: Result<bool, TypeError>)
        requires
            !answer_rel(self@, ParameterPredicate::Move, p@, fuel as nat, Answer::Stuck),
        ensures
            answer_rel(self@, ParameterPredicate::Move, p@, fuel as nat, answer_of(r)),
    {
        self.answer(ParameterPredicate::Move, p, fuel)
    }

    /// True if the named type is copy: a value type with a copy generic
    /// argument. A class type is not copy.
    pub fn named_ty_is_copy(&self, n: &NamedTy, fuel: usize) -> (r: Result<bool, TypeError>)
        requires
            !answer_rel(self@, ParameterPredicate::Copy, SParameter::Ty(STy::NamedTy(n@)), fuel as nat, Answer::Stuck),
        ensures
            answer_rel(self@, ParameterPredicate::Copy, SParameter::Ty(STy::NamedTy(n@)), fuel as nat, answer_of(r)),
            !is_value_name(n@.name) ==> r == Ok::<bool, TypeError>(false),
    {
        let ghost pv = parameters_view(n.parameters@);
        if self.is_value_ty(&n.name) {
            proof {
                assert(pv.subrange(0, pv.len() as int) =~= pv);
                lemma_parameters_view(n.parameters@);
            }
            self.params_answer(ParameterPredicate::Copy, &n.parameters, 0, fuel)
        } else {
            Ok(false)
        }
    }
}

/// The permission `q` applied to the type or permission `rhs`.
pub open spec fn apply_to(q: SPerm, rhs: SParameter) -> SParameter {
    match rhs {
        SParameter::Ty(t) => SParameter::Ty(STy::ApplyPerm(q, Box::new(t))),
        SParameter::Perm(p) => SParameter::Perm(SPerm::Apply(Box::new(q), Box::new(p))),
    }
}

/// Copy distributes over application: `q rhs` is copy exactly when `q` is
/// copy or `rhs` is.
pub proof fn law_copy_of_application(env: SEnv, q: SPerm, rhs: SParameter, fuel: nat, a: bool, b: bool)
    requires
        answer_rel(env, ParameterPredicate::Copy, SParameter::Perm(q), fuel, Answer::Is(a)),
        answer_rel(env, ParameterPredicate::Copy, rhs, fuel, Answer::Is(b)),
    ensures
        answer_rel(env, ParameterPredicate::Copy, apply_to(q, rhs), fuel, Answer::Is(a || b)),
{
    match rhs {
        SParameter::Ty(t) => {
            assert(answer_rel(env, ParameterPredicate::Copy, SParameter::Ty(t), fuel, Answer::Is(b)));
        },
        SParameter::Perm(p) => {
            assert(answer_rel(env, ParameterPredicate::Copy, SParameter::Perm(p), fuel, Answer::Is(b)));
        },
    }
}

/// Moved distributes over application: `q rhs` is moved exactly when both
/// `q` and `rhs` are.
pub proof fn law_moved_of_application(env: SEnv, q: SPerm, rhs: SParameter, fuel: nat, a: bool, b: bool)
    requires
        answer_rel(env, ParameterPredicate::Move, SParameter::Perm(q), fuel, Answer::Is(a)),
        answer_rel(env, ParameterPredicate::Move, rhs, fuel, Answer::Is(b)),
    ensures
        answer_rel(env, ParameterPredicate::Move, apply_to(q, rhs), fuel, Answer::Is(a && b)),
{
    match rhs {
        SParameter::Ty(t) => {
            assert(answer_rel(env, ParameterPredicate::Move, SParameter::Ty(t), fuel, Answer::Is(b)));
        },
        SParameter::Perm(p) => {
            assert(answer_rel(env, ParameterPredicate::Move, SParameter::Perm(p), fuel, Answer::Is(b)));
        },
    }
}

/// A copy or moved question has at most one yes-or-no answer: when the
/// walk answers `a` and also answers `b`, they agree. With the laws of
/// application this fixes the answer for an applied permission.
pub proof fn law_answer_unique(env: SEnv, k: ParameterPredicate, p: SParameter, fuel: nat, a: bool, b: bool)
    requires
        answer_rel(env, k, p, fuel, Answer::Is(a)),
        answer_rel(env, k, p, fuel, Answer::Is(b)),
    ensures
        a == b,
    decreases fuel, 2 * param_size(p),
{
    let all = neutral(k);
    match p {
        SParameter::Ty(t) => match t {
            STy::NamedTy(n) => {
                if is_value_name(n.name) {
                    lemma_params_unique(env, k, n.parameters, fuel, a, b);
                }
            },
            STy::ApplyPerm(q, inner) => {
                let pq = SParameter::Perm(q);
                let pi = SParameter::Ty(*inner);
                if answer_rel(env, k, pq, fuel, Answer::Is(all)) && answer_rel(env, k, pi, fuel, Answer::Is(a)) {
                    if answer_rel(env, k, pq, fuel, Answer::Is(all)) && answer_rel(env, k, pi, fuel, Answer::Is(b)) {
                        law_answer_unique(env, k, pi, fuel, a, b);
                    } else {
                        law_answer_unique(env, k, pq, fuel, all, b);
                    }
                } else if answer_rel(env, k, pq, fuel, Answer::Is(all)) && answer_rel(env, k, pi, fuel, Answer::Is(b)) {
                    law_answer_unique(env, k, pq, fuel, all, a);
                } else {
                    law_answer_unique(env, k, pq, fuel, a, b);
                }
            },
            _ => {},
        },
        SParameter::Perm(q) => match q {
            SPerm::Mv(s) => lemma_places_unique(env, k, s, fuel, a, b),
            SPerm::Mt(s) => lemma_places_unique(env, k, s, fuel, a, b),
            SPerm::Apply(l, rr) => {
                let pl = SParameter::Perm(*l);
                let pr = SParameter::Perm(*rr);
                if answer_rel(env, k, pl, fuel, Answer::Is(all)) && answer_rel(env, k, pr, fuel, Answer::Is(a)) {
                    if answer_rel(env, k, pl, fuel, Answer::Is(all)) && answer_rel(env, k, pr, fuel, Answer::Is(b)) {
                        law_answer_unique(env, k, pr, fuel, a, b);
                    } else {
                        law_answer_unique(env, k, pl, fuel, all, b);
                    }
                } else if answer_rel(env, k, pl, fuel, Answer::Is(all)) && answer_rel(env, k, pr, fuel, Answer::Is(b)) {
                    law_answer_unique(env, k, pl, fuel, all, a);
                } else {
                    law_answer_unique(env, k, pl, fuel, a, b);
                }
            },
            SPerm::Or(ps) => lemma_perms_unique(env, k, ps, fuel, a, b),
            _ => {},
        },
    }
}

proof fn lemma_params_unique(env: SEnv, k: ParameterPredicate, ps: Seq<SParameter>, fuel: nat, a: bool, b: bool)
    requires
        params_rel(env, k, ps, fuel, Answer::Is(a)),
        params_rel(env, k, ps, fuel, Answer::Is(b)),
    ensures
        a == b,
    decreases fuel, 2 * params_size(ps) + 1,
{
    if ps.len() > 0 {
        lemma_param_size_pos(ps[0]);
        let n = neutral(k);
        let rest = ps.subrange(1, ps.len() as int);
        if answer_rel(env, k, ps[0], fuel, Answer::Is(n)) && params_rel(env, k, rest, fuel, Answer::Is(a)) {
            if answer_rel(env, k, ps[0], fuel, Answer::Is(n)) && params_rel(env, k, rest, fuel, Answer::Is(b)) {
                lemma_params_unique(env, k, rest, fuel, a, b);
            } else {
                law_answer_unique(env, k, ps[0], fuel, n, b);
            }
        } else if answer_rel(env, k, ps[0], fuel, Answer::Is(n)) && params_rel(env, k, rest, fuel, Answer::Is(b)) {
            law_answer_unique(env, k, ps[0], fuel, n, a);
        } else {
            law_answer_unique(env, k, ps[0], fuel, a, b);
        }
    }
}

proof fn lemma_perms_unique(env: SEnv, k: ParameterPredicate, ps: Seq<SPerm>, fuel: nat, a: bool, b: bool)
    requires
        perms_rel(env, k, ps, fuel, Answer::Is(a)),
        perms_rel(env, k, ps, fuel, Answer::Is(b)),
    ensures
        a == b,
    decreases fuel, 2 * perms_size(ps) + 1,
{
    if ps.len() > 0 {
        lemma_perms_size_front(ps);
        lemma_param_size_pos(SParameter::Perm(ps[0]));
        let p0 = SParameter::Perm(ps[0]);
        let rest = ps.subrange(1, ps.len() as int);
        if answer_rel(env, k, p0, fuel, Answer::Is(false)) && perms_rel(env, k, rest, fuel, Answer::Is(a)) {
            if answer_rel(env, k, p0, fuel, Answer::Is(false)) && perms_rel(env, k, rest, fuel, Answer::Is(b)) {
                lemma_perms_unique(env, k, rest, fuel, a, b);
            } else {
                law_answer_unique(env, k, p0, fuel, false, b);
            }
        } else if answer_rel(env, k, p0, fuel, Answer::Is(false)) && perms_rel(env, k, rest, fuel, Answer::Is(b)) {
            law_answer_unique(env, k, p0, fuel, false, a);
        } else {
            law_answer_unique(env, k, p0, fuel, a, b);
        }
    }
}

proof fn lemma_place_unique(env: SEnv, k: ParameterPredicate, q: SPlace, fuel: nat, a: bool, b: bool)
    requires
        place_rel(env, k, q, fuel, Answer::Is(a)),
        place_rel(env, k, q, fuel, Answer::Is(b)),
    ensures
        a == b,
    decreases fuel, 0nat,
{
    if fuel > 0 {
        if let Ok(t) = place_ty_of(env, q) {
            law_answer_unique(env, k, ty_param(t), (fuel - 1) as nat, a, b);
        }
    }
}

proof fn lemma_places_unique(env: SEnv, k: ParameterPredicate, s: Set<SPlace>, fuel: nat, a: bool, b: bool)
    requires
        places_rel(env, k, s, fuel, Answer::Is(a)),
        places_rel(env, k, s, fuel, Answer::Is(b)),
    ensures
        a == b,
    decreases fuel, 1nat,
{
    let n = neutral(k);
    if a != b {
        let x = if a == n { b } else { a };
        assert(x != n);
        assert(places_rel(env, k, s, fuel, Answer::Is(x)));
        let q = choose|q: SPlace| #[trigger] s.contains(q) && place_rel(env, k, q, fuel, Answer::Is(x)) && Answer::Is(x) != Answer::Is(n);
        assert(place_rel(env, k, q, fuel, Answer::Is(n)));
        lemma_place_unique(env, k, q, fuel, x, n);
    }
}

} // verus!
