//! Reduced terms: a type or permission split into the permission on the
//! value and the core type of the value.
use vstd::prelude::*;

use crate::env::{Env, SEnv};
use crate::grammar::{
    lemma_perms_view, NamedTy, Parameter, ParameterPredicate, Perm, Predicate, SNamedTy,
    SParameter, SPerm, STy, Ty, Variable,
};
use crate::predicates::{pp, prove_predicate, provable};

verus! {

/// The core type of a value, without its permissions.
pub enum RedTy {
    /// A generic type variable.
    Var(crate::grammar::UniversalVar),
    /// A named type.
    NamedTy(NamedTy),
    /// No type at all: the reduced form of a permission.
    NoData,
}

pub enum SRedTy {
    Var(crate::grammar::UniversalVar),
    NamedTy(SNamedTy),
    NoData,
}

impl View for RedTy {
    type V = SRedTy;

    open spec fn view(&self) -> SRedTy {
        match self {
            RedTy::Var(v) => SRedTy::Var(*v),
            RedTy::NamedTy(n) => SRedTy::NamedTy(n@),
            RedTy::NoData => SRedTy::NoData,
        }
    }
}

/// The permissions on a value, as the sequence of leaf permissions applied
/// to it, outermost first. No permission in it is `given` or an application.
pub struct RedPerm {
    pub perms: Vec<Perm>,
}

impl View for RedPerm {
    type V = Seq<SPerm>;

    open spec fn view(&self) -> Seq<SPerm> {
        crate::grammar::perms_view(self.perms@)
    }
}

/// A reduced term: its permission and its core type.
pub struct RedTerm {
    pub red_perm: RedPerm,
    pub red_ty: RedTy,
}

/// The permission a sequence of reduced permissions stands for: `given`
/// for none, the one for one, and their left-to-right application otherwise.
pub open spec fn red_perm_of(s: Seq<SPerm>) -> SPerm
    decreases s.len(),
{
    if s.len() == 0 {
        SPerm::Given
    } else if s.len() == 1 {
        s[0]
    } else {
        SPerm::Apply(Box::new(red_perm_of(s.drop_last())), Box::new(s.last()))
    }
}

/// The permission and core type of a type: the permissions applied to it
/// from the outside in, ending in `given`; `None` for a variable that is
/// not universal.
pub open spec fn red_ty_of(t: STy) -> Option<(SPerm, SRedTy)>
    decreases t,
{
    match t {
        STy::ApplyPerm(l, r) => match red_ty_of(*r) {
            Some((pr, rt)) => Some((SPerm::Apply(Box::new(l), Box::new(pr)), rt)),
            None => None,
        },
        STy::Var(Variable::UniversalVar(v)) => Some((SPerm::Given, SRedTy::Var(v))),
        STy::Var(_) => None,
        STy::NamedTy(n) => Some((SPerm::Given, SRedTy::NamedTy(n))),
    }
}

/// The permission and core type of a parameter; a permission has no type.
pub open spec fn red_ty_spec(p: SParameter) -> Option<(SPerm, SRedTy)> {
    match p {
        SParameter::Perm(a) => Some((a, SRedTy::NoData)),
        SParameter::Ty(t) => red_ty_of(t),
    }
}

fn red_ty_of_ty(ty: &Ty) -> (r: Option<(Perm, RedTy)>)
    ensures
        match red_ty_of(ty@) {
            Some((p, t)) => r matches Some((rp, rt)) && rp@ == p && rt@ == t,
            None => r is None,
        },
    decreases ty,
{
    match ty {
        Ty::ApplyPerm(l, r) => match red_ty_of_ty(r) {
            Some((pr, rt)) => Some((Perm::Apply(Box::new(l.copy()), Box::new(pr)), rt)),
            None => None,
        },
        Ty::Var(Variable::UniversalVar(v)) => Some((Perm::Given, RedTy::Var(*v))),
        Ty::Var(_) => None,
        Ty::NamedTy(n) => Some((Perm::Given, RedTy::NamedTy(n.copy()))),
    }
}

/// Splits a parameter into the permission on its value and its core type;
/// `None` when it is a variable that is not universal.
pub fn red_ty(a: &Parameter) -> (r: Option<(Perm, RedTy)>)
    ensures
        match red_ty_spec(a@) {
            Some((p, t)) => r matches Some((rp, rt)) && rp@ == p && rt@ == t,
            None => r is None,
        },
{
    match a {
        Parameter::Perm(p) => Some((p.copy(), RedTy::NoData)),
        Parameter::Ty(t) => red_ty_of_ty(t),
    }
}

impl RedPerm {
    /// No permission at all: `my`.
    pub fn my() -> (r: RedPerm)
        ensures
            r@ == Seq::<SPerm>::empty(),
    {
        let r = RedPerm { perms: Vec::new() };
        assert(r@ =~= Seq::<SPerm>::empty());
        r
    }

    /// Shared ownership alone.
    pub fn our() -> (r: RedPerm)
        ensures
            r@ == seq![SPerm::Shared],
    {
        RedPerm::leaf(Perm::Shared)
    }

    /// The leaf permission `perm` alone; `given` gives no permission at all.
    pub fn leaf(perm: Perm) -> (r: RedPerm)
        requires
            !(perm is Apply),
        ensures
            perm is Given ==> r@ == Seq::<SPerm>::empty(),
            !(perm is Given) ==> r@ == seq![perm@],
    {
        match perm {
            Perm::Given => RedPerm::my(),
            _ => {
                let r = RedPerm { perms: vec![perm] };
                proof {
                    lemma_perms_view(r.perms@);
                    assert(r@ =~= seq![r.perms@[0]@]);
                }
                r
            },
        }
    }

    pub fn copy(&self) -> (r: RedPerm)
        ensures
            r@ == self@,
    {
        let mut perms: Vec<Perm> = Vec::new();
        let mut i: usize = 0;
        while i < self.perms.len()
            invariant
                i <= self.perms@.len(),
                perms@.len() == i,
                forall|j: int| 0 <= j < i ==> #[trigger] perms@[j]@ == self.perms@[j]@,
            decreases self.perms.len() - i,
        {
            perms.push(self.perms[i].copy());
            i = i + 1;
        }
        let r = RedPerm { perms };
        proof {
            lemma_perms_view(r.perms@);
            lemma_perms_view(self.perms@);
            assert(r@ =~= self@);
        }
        r
    }

    /// The permissions of `self` followed by those of `other`.
    pub fn concat(&self, other: &RedPerm) -> (r: RedPerm)
        ensures
            r@ == self@ + other@,
    {
        let mut this = self.copy();
        let mut i: usize = 0;
        proof {
            lemma_perms_view(other.perms@);
            lemma_perms_view(self.perms@);
            lemma_perms_view(this.perms@);
        }
        while i < other.perms.len()
            invariant
                i <= other.perms@.len(),
                this.perms@.len() == self.perms@.len() + i,
                forall|j: int| 0 <= j < self.perms@.len() ==> #[trigger] this.perms@[j]@ == self@[j],
                forall|j: int| 0 <= j < i ==> #[trigger] this.perms@[self.perms@.len() + j]@ == other@[j],
                self@.len() == self.perms@.len(),
                other@.len() == other.perms@.len(),
                forall|j: int| 0 <= j < other.perms@.len() ==> #[trigger] other@[j] == other.perms@[j]@,
            decreases other.perms.len() - i,
        {
            this.perms.push(other.perms[i].copy());
            i = i + 1;
        }
        proof {
            lemma_perms_view(this.perms@);
            assert forall|j: int| 0 <= j < this@.len() implies this@[j] == (self@ + other@)[j] by {
                if j >= self@.len() {
                    let k = j - self@.len();
                    assert(this.perms@[self.perms@.len() + k]@ == other@[k]);
                }
            }
            assert(this@ =~= self@ + other@);
        }
        this
    }

    /// The permission these stand for (see [`red_perm_of`]).
    pub fn to_perm(&self) -> (r: Perm)
        ensures
            r@ == red_perm_of(self@),
    {
        proof {
            lemma_perms_view(self.perms@);
        }
        let n = self.perms.len();
        if n == 0 {
            return Perm::Given;
        }
        let mut perm = self.perms[0].copy();
        let mut i: usize = 1;
        proof {
            let first = self@.subrange(0, 1);
            assert(first.len() == 1 && first[0] == self@[0]);
        }
        while i < n
            invariant
                n == self.perms@.len(),
                self@.len() == n,
                forall|j: int| 0 <= j < n ==> #[trigger] self@[j] == self.perms@[j]@,
                1 <= i <= n,
                perm@ == red_perm_of(self@.subrange(0, i as int)),
            decreases n - i,
        {
            let ghost sub = self@.subrange(0, i + 1);
            assert(sub.drop_last() =~= self@.subrange(0, i as int));
            assert(sub.last() == self.perms@[i as int]@);
            perm = Perm::Apply(Box::new(perm), Box::new(self.perms[i].copy()));
            i = i + 1;
        }
        assert(self@.subrange(0, n as int) =~= self@);
        perm
    }

    /// Splits off the first permission; `None` when there is none.
    pub fn split_first(&self) -> (r: Option<(Perm, RedPerm)>)
        ensures
            self@.len() == 0 ==> r is None,
            self@.len() > 0 ==> (r matches Some((p, rest)) && p@ == self@[0]
                && rest@ == self@.subrange(1, self@.len() as int)),
    {
        proof {
            lemma_perms_view(self.perms@);
        }
        if self.perms.len() == 0 {
            return None;
        }
        let mut rest: Vec<Perm> = Vec::new();
        let mut i: usize = 1;
        while i < self.perms.len()
            invariant
                1 <= i <= self.perms@.len(),
                self@.len() == self.perms@.len(),
                forall|j: int| 0 <= j < self.perms@.len() ==> #[trigger] self@[j] == self.perms@[j]@,
                rest@.len() == i - 1,
                forall|j: int| 0 <= j < i - 1 ==> #[trigger] rest@[j]@ == self@[j + 1],
            decreases self.perms.len() - i,
        {
            rest.push(self.perms[i].copy());
            i = i + 1;
        }
        let rest = RedPerm { perms: rest };
        proof {
            lemma_perms_view(rest.perms@);
            assert(rest@ =~= self@.subrange(1, self@.len() as int));
        }
        Some((self.perms[0].copy(), rest))
    }
}

/// Concatenating reduced permissions and reading them back is applying
/// the first to the second (when both are non-empty).
pub proof fn law_concat_is_apply_of_singletons(a: SPerm, b: SPerm)
    ensures
        red_perm_of(seq![a] + seq![b]) == SPerm::Apply(Box::new(a), Box::new(b)),
{
    let s = seq![a] + seq![b];
    assert(s.len() == 2);
    assert(s.drop_last() =~= seq![a]);
    assert(s.last() == b);
    assert(red_perm_of(seq![a]) == a);
}

/// The reduced permission of `a`: `given` reduces to nothing, a leaf to
/// itself; `l r` reduces to the reduction of `r` alone when `r` is provably
/// copy, else to that of `l` followed by that of `r`. `None` for `Or`,
/// which has no reduction.
pub open spec fn red_perm_spec(env: SEnv, a: SPerm, fuel: nat) -> Option<Seq<SPerm>>
    decreases a,
{
    match a {
        SPerm::Given => Some(Seq::empty()),
        SPerm::Or(_) => None,
        SPerm::Apply(l, r) => if provable(env, pp(ParameterPredicate::Copy, SParameter::Perm(*r)), fuel) {
            red_perm_spec(env, *r, fuel)
        } else {
            match (red_perm_spec(env, *l, fuel), red_perm_spec(env, *r, fuel)) {
                (Some(x), Some(y)) => Some(x + y),
                _ => None,
            }
        },
        _ => Some(seq![a]),
    }
}

/// The reduced term of `a` under the permission `u`: `u` applied to the
/// permission of `a` and reduced, paired with the core type of `a`.
pub open spec fn red_term_spec(env: SEnv, u: SPerm, a: SParameter, fuel: nat) -> Option<(Seq<SPerm>, SRedTy)> {
    match red_ty_spec(a) {
        None => None,
        Some((pa, rt)) => match red_perm_spec(env, SPerm::Apply(Box::new(u), Box::new(pa)), fuel) {
            None => None,
            Some(rp) => Some((rp, rt)),
        },
    }
}

/// The reduced permission of `a` (see [`red_perm_spec`]); proving a
/// permission copy looks up at most `fuel` place types along any line.
pub fn red_perm(env: &Env, a: &Perm, fuel: usize) -> (r: Option<RedPerm>)
    ensures
        match red_perm_spec(env@, a@, fuel as nat) {
            None => r is None,
            Some(s) => r matches Some(rp) && rp@ == s,
        },
    decreases a,
{
    match a {
        Perm::Given => Some(RedPerm::my()),
        Perm::Or(_) => None,
        Perm::Apply(l, r) => {
            assert(a@ == SPerm::Apply(Box::new(l@), Box::new(r@)));
            let copy = prove_predicate(env, &Predicate::Parameter(ParameterPredicate::Copy, Parameter::Perm((**r).copy())), fuel);
            if copy {
                red_perm(env, r, fuel)
            } else {
                let rl = red_perm(env, l, fuel);
                let rr = red_perm(env, r, fuel);
                match (rl, rr) {
                    (Some(x), Some(y)) => Some(x.concat(&y)),
                    _ => None,
                }
            }
        },
        _ => {
            let r = RedPerm::leaf(a.copy());
            proof {
                match a {
                    Perm::Shared => assert(a@ == SPerm::Shared),
                    Perm::Mv(s) => assert(a@ == SPerm::Mv(crate::grammar::place_set(s@))),
                    Perm::Rf(s) => assert(a@ == SPerm::Rf(crate::grammar::place_set(s@))),
                    Perm::Mt(s) => assert(a@ == SPerm::Mt(crate::grammar::place_set(s@))),
                    Perm::Var(v) => assert(a@ == SPerm::Var(*v)),
                    _ => {},
                }
            }
            Some(r)
        },
    }
}

/// The reduced term of `a` under the permission `u` (see [`red_term_spec`]).
pub fn red_term_under(env: &Env, u: &Perm, a: &Parameter, fuel: usize) -> (r: Option<RedTerm>)
    ensures
        match red_term_spec(env@, u@, a@, fuel as nat) {
            None => r is None,
            Some((rp, rt)) => r matches Some(t) && t.red_perm@ == rp && t.red_ty@ == rt,
        },
{
    match red_ty(a) {
        None => None,
        Some((pa, rt)) => {
            let applied = Perm::Apply(Box::new(u.copy()), Box::new(pa));
            match red_perm(env, &applied, fuel) {
                None => None,
                Some(rp) => Some(RedTerm { red_perm: rp, red_ty: rt }),
            }
        },
    }
}

/// The reduced term of `a`: under no permission at all.
pub fn red_term(env: &Env, a: &Parameter, fuel: usize) -> (r: Option<RedTerm>)
    ensures
        match red_term_spec(env@, SPerm::Given, a@, fuel as nat) {
            None => r is None,
            Some((rp, rt)) => r matches Some(t) && t.red_perm@ == rp && t.red_ty@ == rt,
        },
{
    red_term_under(env, &Perm::Given, a, fuel)
}

/// Owned permission adds nothing: `given p` reduces as `p` does.
pub proof fn law_given_reduces_to_nothing(env: SEnv, p: SPerm, fuel: nat)
    ensures
        red_perm_spec(env, SPerm::Apply(Box::new(SPerm::Given), Box::new(p)), fuel) == red_perm_spec(env, p, fuel),
{
    assert(red_perm_spec(env, SPerm::Given, fuel) == Some(Seq::<SPerm>::empty()));
    match red_perm_spec(env, p, fuel) {
        Some(y) => {
            assert(Seq::<SPerm>::empty() + y =~= y);
        },
        None => {},
    }
}

/// `our` forgets what it is applied to: `l our` reduces to `our`.
pub proof fn law_copy_forgets_the_left(env: SEnv, l: SPerm, fuel: nat)
    ensures
        red_perm_spec(env, SPerm::Apply(Box::new(l), Box::new(SPerm::Shared)), fuel) == Some(seq![SPerm::Shared]),
{
    crate::predicates::law_given_and_shared(env, fuel);
    assert(crate::predicates::perm_param(SPerm::Shared) == SParameter::Perm(SPerm::Shared));
    assert(provable(env, pp(ParameterPredicate::Copy, SParameter::Perm(SPerm::Shared)), fuel));
    assert(red_perm_spec(env, SPerm::Shared, fuel) == Some(seq![SPerm::Shared]));
}

} // verus!
