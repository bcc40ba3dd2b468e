//! What happens to permissions when the temporaries of a call go out of
//! scope: finding the permissions that mention them, diagnosing borrows
//! that would dangle, and turning reduced chains back into permissions.
use vstd::prelude::*;

use crate::env::{Env, SEnv};
use crate::grammar::{
    lemma_parameters_view, lemma_perms_view, lemma_place_set_contains, parameters_view, perms_view,
    NamedTy, Parameter, ParameterPredicate, Perm, Place, SNamedTy, SParameter, SPerm, SPlace, STy,
    STypeName, SVar, Ty, Var,
};
use crate::liveness::{LivePlaces, SLivePlaces};
use crate::places::place_ty_of;
use crate::predicates::{
    lemma_param_size_pos, param_size, params_size, pp, provable, prove_is_copy, prove_is_mut,
    prove_is_shareable, ty_param,
};
use crate::redperms::{
    chain_perm, chains_set, expanded, lemma_chains_set_contains, red_perm, RedChain, RedLink, RedPerm,
    SRedLink,
};

verus! {

/// True if `vars` holds the variable `v`.
pub open spec fn holds_var(vars: Seq<SVar>, v: SVar) -> bool {
    vars.contains(v)
}

/// True if one of the places `s` is rooted in one of `vars`.
pub open spec fn places_refs(s: Set<SPlace>, vars: Seq<SVar>) -> bool {
    exists|q: SPlace| s.contains(q) && holds_var(vars, q.var)
}

/// True if `p` mentions a place rooted in one of `vars`.
pub open spec fn perm_refs(p: SPerm, vars: Seq<SVar>) -> bool
    decreases p,
{
    match p {
        SPerm::Given => false,
        SPerm::Shared => false,
        SPerm::Var(_) => false,
        SPerm::Mv(s) => places_refs(s, vars),
        SPerm::Rf(s) => places_refs(s, vars),
        SPerm::Mt(s) => places_refs(s, vars),
        SPerm::Apply(l, r) => perm_refs(*l, vars) || perm_refs(*r, vars),
        SPerm::Or(ps) => any_perm_refs(ps, vars),
    }
}

/// True if one of `ps` mentions a place rooted in one of `vars`.
pub open spec fn any_perm_refs(ps: Seq<SPerm>, vars: Seq<SVar>) -> bool
    decreases ps,
{
    if ps.len() == 0 {
        false
    } else {
        any_perm_refs(ps.subrange(0, ps.len() - 1), vars) || perm_refs(ps[ps.len() - 1], vars)
    }
}

/// True if `l` goes through a place rooted in one of `vars`.
pub open spec fn link_refs(l: SRedLink, vars: Seq<SVar>) -> bool {
    match l {
        SRedLink::Rfl(p) => holds_var(vars, p.var),
        SRedLink::Rfd(p) => holds_var(vars, p.var),
        SRedLink::Mtl(p) => holds_var(vars, p.var),
        SRedLink::Mtd(p) => holds_var(vars, p.var),
        SRedLink::Mv(p) => holds_var(vars, p.var),
        SRedLink::Shared => false,
        SRedLink::Var(_) => false,
    }
}

pub open spec fn vars_view(vars: Seq<Var>) -> Seq<SVar> {
    vars.map_values(|v: Var| v@)
}

/// True if `vars` holds `v`.
fn contains_var(vars: &[Var], v: &Var) -> (r: bool)
    ensures
        r == holds_var(vars_view(vars@), v@),
{
    let ghost vv = vars_view(vars@);
    let mut i: usize = 0;
    while i < vars.len()
        invariant
            vv == vars_view(vars@),
            i <= vars@.len(),
            forall|j: int| 0 <= j < i ==> vv[j] != v@,
        decreases vars.len() - i,
    {
        if vars[i].same(v) {
            assert(vv[i as int] == v@);
            return true;
        }
        i = i + 1;
    }
    assert forall|j: int| 0 <= j < vv.len() implies vv[j] != v@ by {}
    false
}

/// True if one of `places` is rooted in one of `vars`.
fn places_reference_vars(places: &Vec<Place>, vars: &[Var]) -> (r: bool)
    ensures
        r == places_refs(crate::grammar::place_set(places@), vars_view(vars@)),
{
    let mut i: usize = 0;
    while i < places.len()
        invariant
            i <= places@.len(),
            forall|j: int| 0 <= j < i ==> !holds_var(vars_view(vars@), #[trigger] places@[j]@.var),
        decreases places.len() - i,
    {
        if contains_var(vars, &places[i].var) {
            proof {
                lemma_place_set_contains(places@, places@[i as int]@);
            }
            return true;
        }
        i = i + 1;
    }
    proof {
        assert forall|q: SPlace| !(crate::grammar::place_set(places@).contains(q) && holds_var(vars_view(vars@), q.var)) by {
            lemma_place_set_contains(places@, q);
            if crate::grammar::place_set(places@).contains(q) {
                let j = choose|j: int| 0 <= j < places@.len() && #[trigger] places@[j]@ == q;
                assert(!holds_var(vars_view(vars@), places@[j]@.var));
            }
        }
    }
    false
}

/// True if the permission mentions a place rooted in one of `vars`.
pub fn perm_references_vars(perm: &Perm, vars: &[Var]) -> (r: bool)
    ensures
        r == perm_refs(perm@, vars_view(vars@)),
    decreases perm,
{
    let ghost vv = vars_view(vars@);
    let r = match perm {
        Perm::Given => false,
        Perm::Shared => false,
        Perm::Var(_) => false,
        Perm::Mv(places) => places_reference_vars(places, vars),
        Perm::Rf(places) => places_reference_vars(places, vars),
        Perm::Mt(places) => places_reference_vars(places, vars),
        Perm::Apply(l, r) => {
            let a = perm_references_vars(l, vars);
            let b = perm_references_vars(r, vars);
            assert(perm@ == SPerm::Apply(Box::new(l@), Box::new(r@)));
            a || b
        },
        Perm::Or(perms) => {
            let ghost pv = perms_view(perms@);
            proof {
                lemma_perms_view(perms@);
                assert(pv.subrange(0, 0) =~= Seq::<SPerm>::empty());
            }
            let mut found = false;
            let mut i: usize = 0;
            while i < perms.len()
                invariant
                    *perm == Perm::Or(*perms),
                    vv == vars_view(vars@),
                    pv == perms_view(perms@),
                    pv.len() == perms@.len(),
                    forall|j: int| 0 <= j < perms@.len() ==> #[trigger] pv[j] == perms@[j]@,
                    i <= perms@.len(),
                    found == any_perm_refs(pv.subrange(0, i as int), vv),
                decreases perms.len() - i,
            {
                proof {
                    assert(decreases_to!(*perm => (*perm)->Or_0));
                }
                let here = perm_references_vars(&perms[i], vars);
                let ghost sub = pv.subrange(0, i + 1);
                assert(sub.subrange(0, sub.len() - 1) =~= pv.subrange(0, i as int));
                assert(sub[sub.len() - 1] == perms@[i as int]@);
                found = found || here;
                i = i + 1;
            }
            assert(pv.subrange(0, pv.len() as int) =~= pv);
            assert(perm@ == SPerm::Or(pv));
            found
        },
    };
    r
}

/// True if the link goes through a place rooted in one of `popped_vars`.
pub fn link_references_popped(link: &RedLink, popped_vars: &[Var]) -> (r: bool)
    ensures
        r == link_refs(link@, vars_view(popped_vars@)),
{
    match link {
        RedLink::Rfl(p) | RedLink::Rfd(p) | RedLink::Mtl(p) | RedLink::Mtd(p) | RedLink::Mv(p) => {
            contains_var(popped_vars, &p.var)
        },
        RedLink::Shared | RedLink::Var(_) => false,
    }
}

/// Why a chain that mentions popped variables cannot be kept.
pub enum DanglingBorrow {
    /// A borrow from a popped place that was held with `given`: the borrow
    /// would outlive the owned value.
    BorrowFromGiven(Place),
    /// The chain borrows through the popped place (its type cannot be
    /// shared, or what follows is not a mutable borrow).
    ThroughPopped(RedChain, Place),
    /// A link to a place that is still live names a popped variable.
    LiveLink(RedLink, Var),
    /// The chain mentions popped variables in some other way.
    MentionsPopped(RedChain),
}

pub enum SDanglingBorrow {
    BorrowFromGiven(SPlace),
    ThroughPopped(Seq<SRedLink>, SPlace),
    LiveLink(SRedLink, SVar),
    MentionsPopped(Seq<SRedLink>),
}

impl View for DanglingBorrow {
    type V = SDanglingBorrow;

    open spec fn view(&self) -> SDanglingBorrow {
        match self {
            DanglingBorrow::BorrowFromGiven(p) => SDanglingBorrow::BorrowFromGiven(p@),
            DanglingBorrow::ThroughPopped(c, p) => SDanglingBorrow::ThroughPopped(c@, p@),
            DanglingBorrow::LiveLink(l, v) => SDanglingBorrow::LiveLink(l@, v@),
            DanglingBorrow::MentionsPopped(c) => SDanglingBorrow::MentionsPopped(c@),
        }
    }
}

/// A borrow link (live or dead, shared or mutable) to a popped variable.
pub open spec fn is_dangling_link(l: SRedLink, vars: Seq<SVar>) -> bool {
    match l {
        SRedLink::Rfl(p) => holds_var(vars, p.var),
        SRedLink::Rfd(p) => holds_var(vars, p.var),
        SRedLink::Mtl(p) => holds_var(vars, p.var),
        SRedLink::Mtd(p) => holds_var(vars, p.var),
        _ => false,
    }
}

/// The index of the first dangling link of `s`, or `s.len()`.
pub open spec fn first_dangling(s: Seq<SRedLink>, vars: Seq<SVar>) -> int
    decreases s.len(),
{
    if s.len() == 0 {
        0
    } else if is_dangling_link(s[0], vars) {
        0
    } else {
        1 + first_dangling(s.subrange(1, s.len() as int), vars)
    }
}

proof fn lemma_first_dangling_unique(s: Seq<SRedLink>, vars: Seq<SVar>, k: int)
    requires
        0 <= k <= s.len(),
        forall|j: int| 0 <= j < k ==> !is_dangling_link(#[trigger] s[j], vars),
        k < s.len() ==> is_dangling_link(s[k], vars),
    ensures
        first_dangling(s, vars) == k,
    decreases s.len(),
{
    if s.len() > 0 && k > 0 {
        let t = s.subrange(1, s.len() as int);
        assert(!is_dangling_link(s[0], vars));
        assert forall|j: int| 0 <= j < k - 1 implies !is_dangling_link(#[trigger] t[j], vars) by {
            assert(t[j] == s[j + 1]);
        }
        if k - 1 < t.len() {
            assert(t[k - 1] == s[k]);
        }
        lemma_first_dangling_unique(t, vars, k - 1);
    }
}

/// The diagnosis of a chain `c` that could not be stripped of `vars`.
pub open spec fn dangling_borrow_spec(c: Seq<SRedLink>, vars: Seq<SVar>) -> SDanglingBorrow {
    let k = first_dangling(c, vars);
    if k >= c.len() {
        SDanglingBorrow::MentionsPopped(c)
    } else {
        match c[k] {
            SRedLink::Rfd(p) => if k == c.len() - 1 {
                SDanglingBorrow::BorrowFromGiven(p)
            } else {
                SDanglingBorrow::ThroughPopped(c, p)
            },
            SRedLink::Mtd(p) => SDanglingBorrow::ThroughPopped(c, p),
            SRedLink::Rfl(p) => SDanglingBorrow::LiveLink(c[k], p.var),
            SRedLink::Mtl(p) => SDanglingBorrow::LiveLink(c[k], p.var),
            _ => SDanglingBorrow::MentionsPopped(c),
        }
    }
}

/// Diagnoses why `chain` dangles once `popped_vars` go out of scope, from
/// its first borrow link to a popped variable.
pub fn dangling_borrow_error(chain: &RedChain, popped_vars: &[Var]) -> (r: DanglingBorrow)
    ensures
        r@ == dangling_borrow_spec(chain@, vars_view(popped_vars@)),
{
    let ghost vv = vars_view(popped_vars@);
    let ghost s = chain@;
    let mut i: usize = 0;
    while i < chain.links.len()
        invariant
            vv == vars_view(popped_vars@),
            s == chain@,
            s.len() == chain.links@.len(),
            i <= s.len(),
            forall|j: int| 0 <= j < i ==> !is_dangling_link(#[trigger] s[j], vv),
        decreases chain.links.len() - i,
    {
        assert(s[i as int] == chain.links@[i as int]@);
        match &chain.links[i] {
            RedLink::Rfd(place) => {
                if contains_var(popped_vars, &place.var) {
                    proof {
                        lemma_first_dangling_unique(s, vv, i as int);
                    }
                    if i + 1 == chain.links.len() {
                        return DanglingBorrow::BorrowFromGiven(place.copy());
                    }
                    return DanglingBorrow::ThroughPopped(chain.copy(), place.copy());
                }
            },
            RedLink::Mtd(place) => {
                if contains_var(popped_vars, &place.var) {
                    proof {
                        lemma_first_dangling_unique(s, vv, i as int);
                    }
                    return DanglingBorrow::ThroughPopped(chain.copy(), place.copy());
                }
            },
            RedLink::Rfl(place) | RedLink::Mtl(place) => {
                if contains_var(popped_vars, &place.var) {
                    proof {
                        lemma_first_dangling_unique(s, vv, i as int);
                    }
                    return DanglingBorrow::LiveLink(chain.links[i].copy(), place.var.copy());
                }
            },
            _ => {},
        }
        i = i + 1;
    }
    proof {
        lemma_first_dangling_unique(s, vv, i as int);
    }
    DanglingBorrow::MentionsPopped(chain.copy())
}

/// The permission a set of chains stands for: `given` for none, the chain's
/// own permission for one, and the choice among their permissions otherwise.
pub open spec fn red_perm_perm(s: Seq<Seq<SRedLink>>) -> SPerm {
    if s.len() == 0 {
        SPerm::Given
    } else if s.len() == 1 {
        chain_perm(s[0])
    } else {
        SPerm::Or(s.map_values(|c: Seq<SRedLink>| chain_perm(c)))
    }
}

/// Turns reduced chains back into one permission. No chain stands for a
/// choice, so the choice among several chains is already flat.
pub fn red_perm_to_perm(red_perm: &RedPerm) -> (r: Perm)
    ensures
        r@ == red_perm_perm(red_perm@),
{
    let n = red_perm.chains.len();
    if n == 0 {
        return Perm::Given;
    }
    if n == 1 {
        return red_perm.chains[0].to_perm();
    }
    let mut perms: Vec<Perm> = Vec::new();
    let mut i: usize = 0;
    while i < n
        invariant
            n == red_perm.chains@.len(),
            i <= n,
            perms@.len() == i,
            forall|j: int| 0 <= j < i ==> #[trigger] perms@[j]@ == chain_perm(red_perm.chains@[j]@),
        decreases n - i,
    {
        perms.push(red_perm.chains[i].to_perm());
        i = i + 1;
    }
    proof {
        lemma_perms_view(perms@);
        assert(perms_view(perms@) =~= red_perm@.map_values(|c: Seq<SRedLink>| chain_perm(c)));
    }
    Perm::Or(perms)
}

// ---------------------------------------------------------------------------
// Letting go of the links to popped variables
// ---------------------------------------------------------------------------

/// A dead borrow of the popped place `q`, followed by `tail`, can be let
/// go: the type of `q` can be shared and `tail` is a mutable permission.
pub open spec fn dead_link_strippable(env: SEnv, q: SPlace, tail: Seq<SRedLink>, fuel: nat) -> bool {
    place_ty_of(env, q) matches Ok(t)
        && provable(env, pp(ParameterPredicate::Share, ty_param(t)), fuel)
        && provable(env, pp(ParameterPredicate::Mut, SParameter::Perm(chain_perm(tail))), fuel)
}

/// `l` in front of the chain `r`, if there is one.
pub open spec fn prepend(l: SRedLink, r: Option<Seq<SRedLink>>) -> Option<Seq<SRedLink>> {
    match r {
        Some(s) => Some(seq![l] + s),
        None => None,
    }
}

/// The chain `c` without its links to the popped `vars`: a dead mutable
/// borrow of a popped place is dropped and a dead shared borrow becomes
/// shared ownership, each only when it can be let go (see
/// [`dead_link_strippable`]); other links are kept unless they name a
/// popped variable, in which case the chain cannot be kept (`None`).
pub open spec fn stripped(env: SEnv, c: Seq<SRedLink>, vars: Seq<SVar>, fuel: nat) -> Option<Seq<SRedLink>>
    decreases c.len(),
{
    if c.len() == 0 {
        Some(Seq::empty())
    } else {
        let tail = c.subrange(1, c.len() as int);
        let rest = stripped(env, tail, vars, fuel);
        match c[0] {
            SRedLink::Mtd(q) => if holds_var(vars, q.var) {
                if dead_link_strippable(env, q, tail, fuel) {
                    rest
                } else {
                    None
                }
            } else {
                prepend(c[0], rest)
            },
            SRedLink::Rfd(q) => if holds_var(vars, q.var) {
                if dead_link_strippable(env, q, tail, fuel) {
                    prepend(SRedLink::Shared, rest)
                } else {
                    None
                }
            } else {
                prepend(c[0], rest)
            },
            _ => if link_refs(c[0], vars) {
                None
            } else {
                prepend(c[0], rest)
            },
        }
    }
}

/// True if the dead borrow of `place` followed by `tail` can be let go
/// (see [`dead_link_strippable`]).
fn dead_link_is_strippable(env: &Env, place: &Place, tail: &RedChain, fuel: usize) -> (r: bool)
    ensures
        r == dead_link_strippable(env@, place@, tail@, fuel as nat),
{
    match env.place_ty(place) {
        Err(_) => false,
        Ok(t) => {
            let tp = Parameter::Ty(t);
            assert(tp@ == ty_param(t@));
            let pp_ = Parameter::Perm(tail.to_perm());
            prove_is_shareable(env, &tp, fuel) && prove_is_mut(env, &pp_, fuel)
        },
    }
}

/// A chain whose links from `k` on cannot be stripped cannot be stripped.
proof fn lemma_stripped_none(env: SEnv, c: Seq<SRedLink>, k: int, vars: Seq<SVar>, fuel: nat)
    requires
        0 <= k <= c.len(),
        stripped(env, c.subrange(k, c.len() as int), vars, fuel) is None,
    ensures
        stripped(env, c, vars, fuel) is None,
    decreases k,
{
    if k > 0 {
        let h = c.subrange(k - 1, c.len() as int);
        assert(h.subrange(1, h.len() as int) =~= c.subrange(k, c.len() as int));
        assert(stripped(env, h, vars, fuel) is None);
        lemma_stripped_none(env, c, k - 1, vars, fuel);
    } else {
        assert(c.subrange(0, c.len() as int) =~= c);
    }
}

/// `chain` without its links to `popped_vars` (see [`stripped`]); `None`
/// when it cannot be kept.
pub fn strip_popped_dead_links(env: &Env, chain: &RedChain, popped_vars: &[Var], fuel: usize) -> (r: Option<RedChain>)
    ensures
        match stripped(env@, chain@, vars_view(popped_vars@), fuel as nat) {
            Some(s) => r matches Some(c) && c@ == s,
            None => r is None,
        },
{
    let ghost vv = vars_view(popped_vars@);
    let ghost c = chain@;
    let n = chain.links.len();
    let mut acc = RedChain::given();
    let mut i: usize = n;
    assert(c.subrange(n as int, n as int) =~= Seq::<SRedLink>::empty());
    while i > 0
        invariant
            vv == vars_view(popped_vars@),
            c == chain@,
            n == c.len(),
            i <= n,
            stripped(env@, c.subrange(i as int, n as int), vv, fuel as nat) == Some(acc@),
        decreases i,
    {
        let k = i - 1;
        let ghost here = c.subrange(k as int, n as int);
        let tail = chain.suffix(i);
        proof {
            assert(here.subrange(1, here.len() as int) =~= c.subrange(i as int, n as int));
            assert(here[0] == chain.links@[k as int]@);
        }
        match &chain.links[k] {
            RedLink::Mtd(q) => {
                if contains_var(popped_vars, &q.var) {
                    if !dead_link_is_strippable(env, q, &tail, fuel) {
                        proof {
                            assert(stripped(env@, here, vv, fuel as nat) is None);
                            lemma_stripped_none(env@, c, k as int, vv, fuel as nat);
                        }
                        return None;
                    }
                } else {
                    acc = RedChain::cons(chain.links[k].copy(), acc);
                }
            },
            RedLink::Rfd(q) => {
                if contains_var(popped_vars, &q.var) {
                    if !dead_link_is_strippable(env, q, &tail, fuel) {
                        proof {
                            assert(stripped(env@, here, vv, fuel as nat) is None);
                            lemma_stripped_none(env@, c, k as int, vv, fuel as nat);
                        }
                        return None;
                    }
                    acc = RedChain::cons(RedLink::Shared, acc);
                } else {
                    acc = RedChain::cons(chain.links[k].copy(), acc);
                }
            },
            _ => {
                if link_references_popped(&chain.links[k], popped_vars) {
                    proof {
                        assert(stripped(env@, here, vv, fuel as nat) is None);
                        lemma_stripped_none(env@, c, k as int, vv, fuel as nat);
                    }
                    return None;
                }
                acc = RedChain::cons(chain.links[k].copy(), acc);
            },
        }
        i = k;
    }
    assert(c.subrange(0, n as int) =~= c);
    Some(acc)
}

// ---------------------------------------------------------------------------
// Normalizing permissions and types
// ---------------------------------------------------------------------------

/// Why a permission cannot be normalized for popping.
pub enum PopError {
    /// The permission reduces to no chain.
    NoReduction(Perm),
    /// One of the chains it reduces to would dangle.
    Dangling(DanglingBorrow),
}

pub enum SPopError {
    NoReduction(SPerm),
    Dangling(SDanglingBorrow),
}

impl View for PopError {
    type V = SPopError;

    open spec fn view(&self) -> SPopError {
        match self {
            PopError::NoReduction(p) => SPopError::NoReduction(p@),
            PopError::Dangling(d) => SPopError::Dangling(d@),
        }
    }
}

/// The chains of `s`, stripped of their links to `vars`.
pub open spec fn stripped_set(env: SEnv, s: Set<Seq<SRedLink>>, vars: Seq<SVar>, fuel: nat) -> Set<Seq<SRedLink>> {
    Set::new(|x: Seq<SRedLink>| exists|c: Seq<SRedLink>| #[trigger] s.contains(c) && stripped(env, c, vars, fuel) == Some(x))
}

/// Some chain of `s` cannot be stripped of its links to `vars`.
pub open spec fn some_dangles(env: SEnv, s: Set<Seq<SRedLink>>, vars: Seq<SVar>, fuel: nat) -> bool {
    exists|c: Seq<SRedLink>| #[trigger] s.contains(c) && stripped(env, c, vars, fuel) is None
}

/// `p` can be normalized for popping `vars`: it names none of them, or it
/// reduces to chains that can all be stripped of them.
pub open spec fn perm_pop_ok(env: SEnv, l: SLivePlaces, p: SPerm, vars: Seq<SVar>, fuel: nat) -> bool {
    !perm_refs(p, vars) || (expanded(env, l, p, fuel) != Set::<Seq<SRedLink>>::empty()
        && !some_dangles(env, expanded(env, l, p, fuel), vars, fuel))
}

/// The results normalizing `p` for popping `vars` can give: `p` itself when
/// it names none of them; otherwise the choice among its reduced chains
/// stripped of them (listed once each, in any order), the diagnosis of one
/// chain that cannot be stripped, or a failure to reduce.
pub open spec fn perm_results(env: SEnv, l: SLivePlaces, p: SPerm, vars: Seq<SVar>, fuel: nat) -> Set<Result<SPerm, SPopError>> {
    let s = expanded(env, l, p, fuel);
    if !perm_refs(p, vars) {
        set![Ok(p)]
    } else if s == Set::<Seq<SRedLink>>::empty() {
        set![Err(SPopError::NoReduction(p))]
    } else if some_dangles(env, s, vars, fuel) {
        Set::new(|r: Result<SPerm, SPopError>| exists|c: Seq<SRedLink>| #[trigger] s.contains(c) && stripped(env, c, vars, fuel) is None
            && r == Err::<SPerm, SPopError>(SPopError::Dangling(dangling_borrow_spec(c, vars))))
    } else {
        Set::new(|r: Result<SPerm, SPopError>| exists|cs: Seq<Seq<SRedLink>>| #[trigger] cs.no_duplicates()
            && cs.to_set() == stripped_set(env, s, vars, fuel) && r == Ok::<SPerm, SPopError>(red_perm_perm(cs)))
    }
}

pub open spec fn perm_result_view(r: Result<Perm, PopError>) -> Result<SPerm, SPopError> {
    match r {
        Ok(p) => Ok(p@),
        Err(e) => Err(e@),
    }
}

/// Normalizes `perm` for popping `popped_vars` (see [`perm_results`]):
/// unchanged when it names none of them, otherwise reduced, stripped of
/// its links to them, and turned back into a permission.
pub fn normalize_perm_for_pop(env: &Env, live_after: &LivePlaces, perm: &Perm, popped_vars: &[Var], fuel: usize) -> (r: Result<Perm, PopError>)
    ensures
        perm_results(env@, live_after@, perm@, vars_view(popped_vars@), fuel as nat).contains(perm_result_view(r)),
        r is Ok <==> perm_pop_ok(env@, live_after@, perm@, vars_view(popped_vars@), fuel as nat),
{
    let ghost vv = vars_view(popped_vars@);
    let ghost e = env@;
    let ghost f = fuel as nat;
    if !perm_references_vars(perm, popped_vars) {
        return Ok(perm.copy());
    }
    let ghost s = expanded(env@, live_after@, perm@, fuel as nat);
    let red = match red_perm(env, live_after, perm, fuel) {
        None => return Err(PopError::NoReduction(perm.copy())),
        Some(rp) => rp,
    };
    assert(chains_set(red.chains@) == s);
    assert(s != Set::<Seq<SRedLink>>::empty());
    let mut kept: Vec<RedChain> = Vec::new();
    let mut i: usize = 0;
    while i < red.chains.len()
        invariant
            vv == vars_view(popped_vars@),
            e == env@,
            f == fuel as nat,
            chains_set(red.chains@) == s,
            s == expanded(e, live_after@, perm@, f),
            s != Set::<Seq<SRedLink>>::empty(),
            perm_refs(perm@, vv),
            i <= red.chains@.len(),
            forall|j: int| 0 <= j < i ==> stripped(e, #[trigger] red.chains@[j]@, vv, f) is Some,
            forall|x: int, y: int| 0 <= x < y < kept@.len() ==> kept@[x]@ != kept@[y]@,
            forall|x: Seq<SRedLink>| chains_set(kept@).contains(x) <==> exists|j: int| 0 <= j < i
                && stripped(e, #[trigger] red.chains@[j]@, vv, f) == Some(x),
        decreases red.chains.len() - i,
    {
        match strip_popped_dead_links(env, &red.chains[i], popped_vars, fuel) {
            None => {
                let d = dangling_borrow_error(&red.chains[i], popped_vars);
                proof {
                    let c = red.chains@[i as int]@;
                    lemma_chains_set_contains(red.chains@, c);
                    assert(s.contains(c));
                    assert(stripped(e, c, vv, f) is None);
                }
                return Err(PopError::Dangling(d));
            },
            Some(c) => {
                let mut found = false;
                let mut k: usize = 0;
                while k < kept.len()
                    invariant
                        k <= kept@.len(),
                        found ==> exists|m: int| 0 <= m < kept@.len() && kept@[m]@ == c@,
                        !found ==> forall|m: int| 0 <= m < k ==> kept@[m]@ != c@,
                    decreases kept.len() - k,
                {
                    if kept[k].same(&c) {
                        found = true;
                    }
                    k = k + 1;
                }
                let ghost old_kept = kept@;
                if !found {
                    kept.push(c);
                }
                proof {
                    assert forall|x: Seq<SRedLink>| chains_set(kept@).contains(x) <==> exists|j: int| 0 <= j < i + 1
                        && stripped(e, #[trigger] red.chains@[j]@, vv, f) == Some(x) by {
                        lemma_chains_set_contains(kept@, x);
                        lemma_chains_set_contains(old_kept, x);
                        if chains_set(kept@).contains(x) {
                            let m = choose|m: int| 0 <= m < kept@.len() && #[trigger] kept@[m]@ == x;
                            if m < old_kept.len() {
                                assert(old_kept[m]@ == x);
                            } else {
                                assert(x == red.chains@[i as int]@ || stripped(e, red.chains@[i as int]@, vv, f) == Some(x));
                            }
                        }
                        if exists|j: int| 0 <= j < i + 1 && stripped(e, #[trigger] red.chains@[j]@, vv, f) == Some(x) {
                            let j = choose|j: int| 0 <= j < i + 1 && stripped(e, #[trigger] red.chains@[j]@, vv, f) == Some(x);
                            if j < i {
                                let m = choose|m: int| 0 <= m < old_kept.len() && #[trigger] old_kept[m]@ == x;
                                assert(kept@[m]@ == x);
                            } else if found {
                                let m = choose|m: int| 0 <= m < old_kept.len() && old_kept[m]@ == c@;
                                assert(kept@[m]@ == x);
                            } else {
                                assert(kept@[old_kept.len() as int]@ == x);
                            }
                        }
                    }
                }
            },
        }
        i = i + 1;
    }
    let out = RedPerm { chains: kept };
    let ghost cs = out@;
    proof {
        assert forall|c: Seq<SRedLink>| #[trigger] s.contains(c) implies stripped(e, c, vv, f) is Some by {
            lemma_chains_set_contains(red.chains@, c);
            let j = choose|j: int| 0 <= j < red.chains@.len() && #[trigger] red.chains@[j]@ == c;
        }
        assert(cs.no_duplicates()) by {
            assert forall|x: int, y: int| 0 <= x < cs.len() && 0 <= y < cs.len() && x != y implies cs[x] != cs[y] by {
                if x < y {
                    assert(out.chains@[x]@ != out.chains@[y]@);
                } else {
                    assert(out.chains@[y]@ != out.chains@[x]@);
                }
            }
        }
        assert forall|x: Seq<SRedLink>| cs.to_set().contains(x) <==> stripped_set(e, s, vv, f).contains(x) by {
            lemma_chains_set_contains(out.chains@, x);
            assert(cs.to_set() == chains_set(out.chains@));
            if cs.to_set().contains(x) {
                let j = choose|j: int| 0 <= j < red.chains@.len() && stripped(e, #[trigger] red.chains@[j]@, vv, f) == Some(x);
                lemma_chains_set_contains(red.chains@, red.chains@[j]@);
                assert(s.contains(red.chains@[j]@));
            }
            if stripped_set(e, s, vv, f).contains(x) {
                let c = choose|c: Seq<SRedLink>| #[trigger] s.contains(c) && stripped(e, c, vv, f) == Some(x);
                lemma_chains_set_contains(red.chains@, c);
                let j = choose|j: int| 0 <= j < red.chains@.len() && #[trigger] red.chains@[j]@ == c;
                assert(stripped(e, red.chains@[j]@, vv, f) == Some(x));
            }
        }
        assert(cs.to_set() =~= stripped_set(e, s, vv, f));
        assert(!some_dangles(e, s, vv, f));
    }
    Ok(red_perm_to_perm(&out))
}

/// A permission's result as a parameter's.
pub open spec fn lift_perm(r: Result<SPerm, SPopError>) -> Result<SParameter, SPopError> {
    match r {
        Ok(p) => Ok(SParameter::Perm(p)),
        Err(e) => Err(e),
    }
}

/// The results normalizing the parameter `a` for popping `vars` can give:
/// a permission as [`perm_results`] says; a named type with each of its
/// generic arguments normalized in turn; a variable unchanged; and an
/// applied permission as [`applied_results`] says.
pub open spec fn param_results(env: SEnv, l: SLivePlaces, a: SParameter, vars: Seq<SVar>, fuel: nat) -> Set<Result<SParameter, SPopError>>
    decreases 2 * param_size(a),
{
    match a {
        SParameter::Perm(p) => {
            let prs = perm_results(env, l, p, vars, fuel);
            Set::new(|r: Result<SParameter, SPopError>| exists|pr: Result<SPerm, SPopError>| #[trigger] prs.contains(pr) && r == lift_perm(pr))
        },
        SParameter::Ty(t) => match t {
            STy::NamedTy(n) => named_results(n.name, params_results(env, l, n.parameters, vars, fuel)),
            STy::Var(v) => set![Ok(SParameter::Ty(STy::Var(v)))],
            STy::ApplyPerm(p, inner) => applied_results(env, l, p, param_results(env, l, SParameter::Ty(*inner), vars, fuel), vars, fuel),
        },
    }
}

/// The results normalizing the generic arguments `ps` in turn can give:
/// the first error met, or all of them normalized.
pub open spec fn params_results(env: SEnv, l: SLivePlaces, ps: Seq<SParameter>, vars: Seq<SVar>, fuel: nat) -> Set<Result<Seq<SParameter>, SPopError>>
    decreases 2 * params_size(ps) + 1,
{
    if ps.len() == 0 {
        set![Ok(Seq::empty())]
    } else {
        proof {
            lemma_param_size_pos(ps[0]);
        }
        cons_results(param_results(env, l, ps[0], vars, fuel), params_results(env, l, ps.subrange(1, ps.len() as int), vars, fuel))
    }
}

/// A first argument's result `a` followed by the rest's `b`.
pub open spec fn cons_results(a: Set<Result<SParameter, SPopError>>, b: Set<Result<Seq<SParameter>, SPopError>>) -> Set<Result<Seq<SParameter>, SPopError>> {
    Set::new(|r: Result<Seq<SParameter>, SPopError>|
        (exists|e: SPopError| #[trigger] a.contains(Err(e)) && r == Err::<Seq<SParameter>, SPopError>(e))
        || (exists|x: SParameter, y: Result<Seq<SParameter>, SPopError>| #![trigger a.contains(Ok(x)), b.contains(y)]
            a.contains(Ok(x)) && b.contains(y) && r == (match y {
                Ok(ys) => Ok(seq![x] + ys),
                Err(e) => Err(e),
            })))
}

/// The named type `name` with the normalized arguments of `b`.
pub open spec fn named_results(name: STypeName, b: Set<Result<Seq<SParameter>, SPopError>>) -> Set<Result<SParameter, SPopError>> {
    Set::new(|r: Result<SParameter, SPopError>| exists|y: Result<Seq<SParameter>, SPopError>| #[trigger] b.contains(y) && r == (match y {
        Ok(ps) => Ok(SParameter::Ty(STy::NamedTy(SNamedTy { name, parameters: ps }))),
        Err(e) => Err(e),
    }))
}

/// The permission `p` applied to the normalized type of `inner`: when `p`
/// names a popped variable and the type is copy, the type alone (the
/// permission does not matter); otherwise the normalized permission (`p`
/// itself when it names no popped variable) applied to it.
pub open spec fn applied_results(env: SEnv, l: SLivePlaces, p: SPerm, inner: Set<Result<SParameter, SPopError>>, vars: Seq<SVar>, fuel: nat) -> Set<Result<SParameter, SPopError>> {
    let prs = perm_results(env, l, p, vars, fuel);
    Set::new(|r: Result<SParameter, SPopError>|
        (exists|e: SPopError| #[trigger] inner.contains(Err(e)) && r == Err::<SParameter, SPopError>(e))
        || (exists|t: STy| #[trigger] inner.contains(Ok(SParameter::Ty(t))) && perm_refs(p, vars)
            && provable(env, pp(ParameterPredicate::Copy, ty_param(t)), fuel) && r == Ok::<SParameter, SPopError>(SParameter::Ty(t)))
        || (exists|t: STy, pr: Result<SPerm, SPopError>| #![trigger inner.contains(Ok(SParameter::Ty(t))), prs.contains(pr)]
            inner.contains(Ok(SParameter::Ty(t))) && !(perm_refs(p, vars) && provable(env, pp(ParameterPredicate::Copy, ty_param(t)), fuel))
            && prs.contains(pr) && r == (match pr {
                Ok(np) => Ok(SParameter::Ty(STy::ApplyPerm(np, Box::new(t)))),
                Err(e) => Err(e),
            })))
}

pub open spec fn ty_result_view(r: Result<Ty, PopError>) -> Result<SParameter, SPopError> {
    match r {
        Ok(t) => Ok(SParameter::Ty(t@)),
        Err(e) => Err(e@),
    }
}

pub open spec fn params_result_view(r: Result<Vec<Parameter>, PopError>) -> Result<Seq<SParameter>, SPopError> {
    match r {
        Ok(v) => Ok(parameters_view(v@)),
        Err(e) => Err(e@),
    }
}

/// Normalizes `ty` for popping `popped_vars` (see [`param_results`]): every
/// permission in it that names them is reduced and stripped of them, or
/// dropped when it is applied to a type that turns out copy; permissions
/// that name none of them are left unchanged.
pub fn normalize_ty_for_pop(env: &Env, live_after: &LivePlaces, ty: &Ty, popped_vars: &[Var], fuel: usize) -> (r: Result<Ty, PopError>)
    ensures
        param_results(env@, live_after@, SParameter::Ty(ty@), vars_view(popped_vars@), fuel as nat).contains(ty_result_view(r)),
    decreases 2 * param_size(SParameter::Ty(ty@)),
{
    let ghost vv = vars_view(popped_vars@);
    let ghost e = env@;
    let ghost f = fuel as nat;
    match ty {
        Ty::NamedTy(n) => {
            proof {
                lemma_parameters_view(n.parameters@);
                let pv = parameters_view(n.parameters@);
                assert(pv.subrange(0, pv.len() as int) =~= pv);
            }
            let ghost b = params_results(e, live_after@, parameters_view(n.parameters@), vv, f);
            let r = normalize_params_from(env, live_after, &n.parameters, 0, popped_vars, fuel);
            match r {
                Ok(ps) => {
                    let out = Ty::NamedTy(NamedTy { name: n.name.copy(), parameters: ps });
                    proof {
                        let y = Ok::<Seq<SParameter>, SPopError>(parameters_view(ps@));
                        assert(b.contains(y));
                    }
                    Ok(out)
                },
                Err(err) => {
                    proof {
                        let y = Err::<Seq<SParameter>, SPopError>(err@);
                        assert(b.contains(y));
                    }
                    Err(err)
                },
            }
        },
        Ty::Var(v) => Ok(Ty::Var(*v)),
        Ty::ApplyPerm(p, inner) => {
            let ghost ir = param_results(e, live_after@, SParameter::Ty(inner@), vv, f);
            let ghost prs = perm_results(e, live_after@, p@, vv, f);
            assert(ty@ == STy::ApplyPerm(p@, Box::new(inner@)));
            let new_ty = match normalize_ty_for_pop(env, live_after, inner, popped_vars, fuel) {
                Ok(t) => t,
                Err(err) => {
                    proof {
                        assert(ir.contains(Err(err@)));
                    }
                    return Err(err);
                },
            };
            let tp = Parameter::Ty(new_ty.copy());
            assert(tp@ == ty_param(new_ty@));
            assert(ir.contains(Ok(SParameter::Ty(new_ty@))));
            if perm_references_vars(p, popped_vars) && prove_is_copy(env, &tp, fuel) {
                return Ok(new_ty);
            }
            match normalize_perm_for_pop(env, live_after, p, popped_vars, fuel) {
                Ok(np) => {
                    proof {
                        assert(prs.contains(Ok(np@)));
                    }
                    Ok(Ty::ApplyPerm(np, Box::new(new_ty)))
                },
                Err(err) => {
                    proof {
                        assert(prs.contains(Err(err@)));
                    }
                    Err(err)
                },
            }
        },
    }
}

/// Normalizes the generic arguments `ps[i..]` in turn for popping
/// `popped_vars` (see [`params_results`]).
fn normalize_params_from(env: &Env, live_after: &LivePlaces, ps: &Vec<Parameter>, i: usize, popped_vars: &[Var], fuel: usize) -> (r: Result<Vec<Parameter>, PopError>)
    requires
        i <= ps@.len(),
    ensures
        params_results(env@, live_after@, parameters_view(ps@).subrange(i as int, ps@.len() as int), vars_view(popped_vars@), fuel as nat).contains(params_result_view(r)),
    decreases 2 * params_size(parameters_view(ps@).subrange(i as int, ps@.len() as int)) + 1,
{
    let ghost vv = vars_view(popped_vars@);
    let ghost e = env@;
    let ghost f = fuel as nat;
    let ghost pv = parameters_view(ps@);
    let ghost sv = pv.subrange(i as int, ps@.len() as int);
    proof {
        lemma_parameters_view(ps@);
    }
    if i == ps.len() {
        let r: Vec<Parameter> = Vec::new();
        assert(parameters_view(r@) =~= Seq::<SParameter>::empty());
        assert(sv.len() == 0);
        return Ok(r);
    }
    proof {
        lemma_param_size_pos(sv[0]);
        assert(sv[0] == ps@[i as int]@);
        assert(sv.subrange(1, sv.len() as int) =~= pv.subrange(i + 1, ps@.len() as int));
    }
    let ghost a = param_results(e, live_after@, sv[0], vv, f);
    let ghost b = params_results(e, live_after@, pv.subrange(i + 1, ps@.len() as int), vv, f);
    assert(params_results(e, live_after@, sv, vv, f) == cons_results(a, b));
    let first: Parameter = match &ps[i] {
        Parameter::Ty(t) => match normalize_ty_for_pop(env, live_after, t, popped_vars, fuel) {
            Ok(nt) => {
                proof {
                    assert(a.contains(Ok(SParameter::Ty(nt@))));
                }
                Parameter::Ty(nt)
            },
            Err(err) => {
                proof {
                    assert(a.contains(Err(err@)));
                    let r = Err::<Seq<SParameter>, SPopError>(err@);
                    assert(cons_results(a, b).contains(r));
                }
                return Err(err);
            },
        },
        Parameter::Perm(p) => {
            let ghost prs = perm_results(e, live_after@, p@, vv, f);
            match normalize_perm_for_pop(env, live_after, p, popped_vars, fuel) {
                Ok(np) => {
                    proof {
                        assert(prs.contains(Ok(np@)));
                        assert(lift_perm(Ok(np@)) == Ok::<SParameter, SPopError>(SParameter::Perm(np@)));
                        assert(a.contains(Ok(SParameter::Perm(np@))));
                    }
                    Parameter::Perm(np)
                },
                Err(err) => {
                    proof {
                        assert(prs.contains(Err(err@)));
                        assert(lift_perm(Err(err@)) == Err::<SParameter, SPopError>(err@));
                        assert(a.contains(Err(err@)));
                        let r = Err::<Seq<SParameter>, SPopError>(err@);
                        assert(cons_results(a, b).contains(r));
                    }
                    return Err(err);
                },
            }
        },
    };
    assert(a.contains(Ok(first@)));
    match normalize_params_from(env, live_after, ps, i + 1, popped_vars, fuel) {
        Ok(rest) => {
            let ghost restv = parameters_view(rest@);
            let mut out = rest;
            out.insert(0, first);
            proof {
                lemma_parameters_view(out@);
                lemma_parameters_view(rest@);
                assert(parameters_view(out@) =~= seq![first@] + restv);
                assert(b.contains(Ok(restv)));
                let r = Ok::<Seq<SParameter>, SPopError>(seq![first@] + restv);
                assert(cons_results(a, b).contains(r));
            }
            Ok(out)
        },
        Err(err) => {
            proof {
                assert(b.contains(Err(err@)));
                let r = Err::<Seq<SParameter>, SPopError>(err@);
                assert(cons_results(a, b).contains(r));
            }
            Err(err)
        },
    }
}

/// A chain stripped of the popped `vars` has no link through them.
proof fn lemma_stripped_clean(env: SEnv, c: Seq<SRedLink>, vars: Seq<SVar>, fuel: nat)
    requires
        stripped(env, c, vars, fuel) is Some,
    ensures
        forall|i: int| 0 <= i < stripped(env, c, vars, fuel)->Some_0.len()
            ==> !link_refs(#[trigger] stripped(env, c, vars, fuel)->Some_0[i], vars),
    decreases c.len(),
{
    if c.len() > 0 {
        let tail = c.subrange(1, c.len() as int);
        lemma_stripped_clean(env, tail, vars, fuel);
        let rest = stripped(env, tail, vars, fuel)->Some_0;
        let out = stripped(env, c, vars, fuel)->Some_0;
        assert forall|i: int| 0 <= i < out.len() implies !link_refs(#[trigger] out[i], vars) by {
            if out != rest {
                assert(out == seq![out[0]] + rest);
                if i > 0 {
                    assert(out[i] == rest[i - 1]);
                }
            }
        }
    }
}

/// A chain with no link through `vars` stands for a permission that does
/// not mention them.
proof fn lemma_chain_perm_clean(c: Seq<SRedLink>, vars: Seq<SVar>)
    requires
        forall|i: int| 0 <= i < c.len() ==> !link_refs(#[trigger] c[i], vars),
    ensures
        !perm_refs(chain_perm(c), vars),
    decreases c.len(),
{
    if c.len() > 0 {
        lemma_links_perm_clean(c, vars);
    }
}

proof fn lemma_link_perm_clean(l: SRedLink, vars: Seq<SVar>)
    requires
        !link_refs(l, vars),
    ensures
        !perm_refs(crate::redperms::link_perm(l), vars),
{
    match l {
        SRedLink::Rfl(p) | SRedLink::Rfd(p) | SRedLink::Mtl(p) | SRedLink::Mtd(p) | SRedLink::Mv(p) => {
            assert forall|q: SPlace| !(set![p].contains(q) && holds_var(vars, q.var)) by {}
        },
        _ => {},
    }
}

proof fn lemma_links_perm_clean(c: Seq<SRedLink>, vars: Seq<SVar>)
    requires
        c.len() > 0,
        forall|i: int| 0 <= i < c.len() ==> !link_refs(#[trigger] c[i], vars),
    ensures
        !perm_refs(crate::redperms::links_perm(c), vars),
    decreases c.len(),
{
    if c.len() == 1 {
        lemma_link_perm_clean(c[0], vars);
    } else {
        let d = c.drop_last();
        assert forall|i: int| 0 <= i < d.len() implies !link_refs(#[trigger] d[i], vars) by {
            assert(d[i] == c[i]);
        }
        lemma_links_perm_clean(d, vars);
        lemma_link_perm_clean(c.last(), vars);
    }
}

proof fn lemma_any_perm_refs_clean(ps: Seq<SPerm>, vars: Seq<SVar>)
    requires
        forall|i: int| 0 <= i < ps.len() ==> !perm_refs(#[trigger] ps[i], vars),
    ensures
        !any_perm_refs(ps, vars),
    decreases ps.len(),
{
    if ps.len() > 0 {
        let d = ps.subrange(0, ps.len() - 1);
        assert forall|i: int| 0 <= i < d.len() implies !perm_refs(#[trigger] d[i], vars) by {
            assert(d[i] == ps[i]);
        }
        lemma_any_perm_refs_clean(d, vars);
    }
}

/// Normalizing a permission for popping leaves no mention of the popped
/// variables: whatever permission it gives names none of them.
pub proof fn law_normalized_perm_forgets_popped(env: SEnv, l: SLivePlaces, p: SPerm, vars: Seq<SVar>, fuel: nat, r: Result<SPerm, SPopError>)
    requires
        perm_results(env, l, p, vars, fuel).contains(r),
        r is Ok,
    ensures
        !perm_refs(r->Ok_0, vars),
{
    let s = expanded(env, l, p, fuel);
    if perm_refs(p, vars) && s != Set::<Seq<SRedLink>>::empty() && !some_dangles(env, s, vars, fuel) {
        let cs = choose|cs: Seq<Seq<SRedLink>>| #[trigger] cs.no_duplicates()
            && cs.to_set() == stripped_set(env, s, vars, fuel) && r == Ok::<SPerm, SPopError>(red_perm_perm(cs));
        assert forall|i: int| 0 <= i < cs.len() implies !perm_refs(chain_perm(#[trigger] cs[i]), vars) by {
            assert(cs.to_set().contains(cs[i]));
            let c = choose|c: Seq<SRedLink>| #[trigger] s.contains(c) && stripped(env, c, vars, fuel) == Some(cs[i]);
            lemma_stripped_clean(env, c, vars, fuel);
            let x = cs[i];
            assert forall|j: int| 0 <= j < x.len() implies !link_refs(#[trigger] x[j], vars) by {
                assert(stripped(env, c, vars, fuel)->Some_0[j] == x[j]);
            }
            lemma_chain_perm_clean(x, vars);
        }
        if cs.len() == 1 {
            assert(r->Ok_0 == chain_perm(cs[0]));
        } else if cs.len() > 1 {
            let ps = cs.map_values(|c: Seq<SRedLink>| chain_perm(c));
            assert forall|i: int| 0 <= i < ps.len() implies !perm_refs(#[trigger] ps[i], vars) by {
                assert(ps[i] == chain_perm(cs[i]));
            }
            lemma_any_perm_refs_clean(ps, vars);
        }
    }
}

/// True if the parameter `a` mentions a place rooted in one of `vars` in
/// one of its permissions.
pub open spec fn param_refs(a: SParameter, vars: Seq<SVar>) -> bool
    decreases 2 * param_size(a),
{
    match a {
        SParameter::Perm(p) => perm_refs(p, vars),
        SParameter::Ty(t) => match t {
            STy::NamedTy(n) => params_refs(n.parameters, vars),
            STy::Var(_) => false,
            STy::ApplyPerm(p, inner) => perm_refs(p, vars) || param_refs(SParameter::Ty(*inner), vars),
        },
    }
}

/// True if one of the parameters `ps` mentions a place rooted in one of `vars`.
pub open spec fn params_refs(ps: Seq<SParameter>, vars: Seq<SVar>) -> bool
    decreases 2 * params_size(ps) + 1,
{
    if ps.len() == 0 {
        false
    } else {
        proof {
            lemma_param_size_pos(ps[0]);
        }
        param_refs(ps[0], vars) || params_refs(ps.subrange(1, ps.len() as int), vars)
    }
}

/// Normalizing a type (or any generic argument) for popping leaves no
/// mention of the popped variables in any of its permissions.
pub proof fn law_normalized_param_forgets_popped(env: SEnv, l: SLivePlaces, a: SParameter, vars: Seq<SVar>, fuel: nat, r: Result<SParameter, SPopError>)
    requires
        param_results(env, l, a, vars, fuel).contains(r),
        r is Ok,
    ensures
        !param_refs(r->Ok_0, vars),
    decreases 2 * param_size(a),
{
    match a {
        SParameter::Perm(p) => {
            let prs = perm_results(env, l, p, vars, fuel);
            let pr = choose|pr: Result<SPerm, SPopError>| #[trigger] prs.contains(pr) && r == lift_perm(pr);
            law_normalized_perm_forgets_popped(env, l, p, vars, fuel, pr);
        },
        SParameter::Ty(t) => match t {
            STy::NamedTy(n) => {
                let b = params_results(env, l, n.parameters, vars, fuel);
                let y = choose|y: Result<Seq<SParameter>, SPopError>| #[trigger] b.contains(y) && r == (match y {
                    Ok(ps) => Ok(SParameter::Ty(STy::NamedTy(SNamedTy { name: n.name, parameters: ps }))),
                    Err(e) => Err(e),
                });
                lemma_normalized_params_forget_popped(env, l, n.parameters, vars, fuel, y);
            },
            STy::Var(_) => {},
            STy::ApplyPerm(p, inner) => {
                let ir = param_results(env, l, SParameter::Ty(*inner), vars, fuel);
                let prs = perm_results(env, l, p, vars, fuel);
                if exists|t2: STy| #[trigger] ir.contains(Ok(SParameter::Ty(t2))) && perm_refs(p, vars)
                    && provable(env, pp(ParameterPredicate::Copy, ty_param(t2)), fuel) && r == Ok::<SParameter, SPopError>(SParameter::Ty(t2)) {
                    let t2 = choose|t2: STy| #[trigger] ir.contains(Ok(SParameter::Ty(t2))) && perm_refs(p, vars)
                        && provable(env, pp(ParameterPredicate::Copy, ty_param(t2)), fuel) && r == Ok::<SParameter, SPopError>(SParameter::Ty(t2));
                    law_normalized_param_forgets_popped(env, l, SParameter::Ty(*inner), vars, fuel, Ok(SParameter::Ty(t2)));
                } else {
                    let (t2, pr) = choose|t2: STy, pr: Result<SPerm, SPopError>| #![trigger ir.contains(Ok(SParameter::Ty(t2))), prs.contains(pr)]
                        ir.contains(Ok(SParameter::Ty(t2))) && !(perm_refs(p, vars) && provable(env, pp(ParameterPredicate::Copy, ty_param(t2)), fuel))
                        && prs.contains(pr) && r == (match pr {
                            Ok(np) => Ok(SParameter::Ty(STy::ApplyPerm(np, Box::new(t2)))),
                            Err(e) => Err(e),
                        });
                    law_normalized_param_forgets_popped(env, l, SParameter::Ty(*inner), vars, fuel, Ok(SParameter::Ty(t2)));
                    law_normalized_perm_forgets_popped(env, l, p, vars, fuel, pr);
                }
            },
        },
    }
}

proof fn lemma_normalized_params_forget_popped(env: SEnv, l: SLivePlaces, ps: Seq<SParameter>, vars: Seq<SVar>, fuel: nat, r: Result<Seq<SParameter>, SPopError>)
    requires
        params_results(env, l, ps, vars, fuel).contains(r),
        r is Ok,
    ensures
        !params_refs(r->Ok_0, vars),
    decreases 2 * params_size(ps) + 1,
{
    if ps.len() == 0 {
        assert(r->Ok_0 == Seq::<SParameter>::empty());
    } else {
        lemma_param_size_pos(ps[0]);
        let a = param_results(env, l, ps[0], vars, fuel);
        let b = params_results(env, l, ps.subrange(1, ps.len() as int), vars, fuel);
        let (x, y) = choose|x: SParameter, y: Result<Seq<SParameter>, SPopError>| #![trigger a.contains(Ok(x)), b.contains(y)]
            a.contains(Ok(x)) && b.contains(y) && r == (match y {
                Ok(ys) => Ok(seq![x] + ys),
                Err(e) => Err(e),
            });
        law_normalized_param_forgets_popped(env, l, ps[0], vars, fuel, Ok(x));
        lemma_normalized_params_forget_popped(env, l, ps.subrange(1, ps.len() as int), vars, fuel, y);
        let out = r->Ok_0;
        lemma_param_size_pos(out[0]);
        assert(out.subrange(1, out.len() as int) =~= y->Ok_0);
    }
}

/// A generic argument none of whose permissions names a popped variable
/// is left as it is: normalizing it for popping can only give it back.
pub proof fn law_untouched_param_unchanged(env: SEnv, l: SLivePlaces, a: SParameter, vars: Seq<SVar>, fuel: nat, r: Result<SParameter, SPopError>)
    requires
        !param_refs(a, vars),
        param_results(env, l, a, vars, fuel).contains(r),
    ensures
        r == Ok::<SParameter, SPopError>(a),
    decreases 2 * param_size(a),
{
    match a {
        SParameter::Perm(p) => {},
        SParameter::Ty(t) => match t {
            STy::NamedTy(n) => {
                let b = params_results(env, l, n.parameters, vars, fuel);
                let y = choose|y: Result<Seq<SParameter>, SPopError>| #[trigger] b.contains(y) && r == (match y {
                    Ok(ps) => Ok(SParameter::Ty(STy::NamedTy(SNamedTy { name: n.name, parameters: ps }))),
                    Err(e) => Err(e),
                });
                lemma_untouched_params_unchanged(env, l, n.parameters, vars, fuel, y);
            },
            STy::Var(_) => {},
            STy::ApplyPerm(p, inner) => {
                let ir = param_results(env, l, SParameter::Ty(*inner), vars, fuel);
                let prs = perm_results(env, l, p, vars, fuel);
                assert(prs == set![Ok::<SPerm, SPopError>(p)]);
                if exists|e: SPopError| #[trigger] ir.contains(Err(e)) && r == Err::<SParameter, SPopError>(e) {
                    let e = choose|e: SPopError| #[trigger] ir.contains(Err(e)) && r == Err::<SParameter, SPopError>(e);
                    law_untouched_param_unchanged(env, l, SParameter::Ty(*inner), vars, fuel, Err(e));
                } else {
                    let (t2, pr) = choose|t2: STy, pr: Result<SPerm, SPopError>| #![trigger ir.contains(Ok(SParameter::Ty(t2))), prs.contains(pr)]
                        ir.contains(Ok(SParameter::Ty(t2))) && !(perm_refs(p, vars) && provable(env, pp(ParameterPredicate::Copy, ty_param(t2)), fuel))
                        && prs.contains(pr) && r == (match pr {
                            Ok(np) => Ok(SParameter::Ty(STy::ApplyPerm(np, Box::new(t2)))),
                            Err(e) => Err(e),
                        });
                    law_untouched_param_unchanged(env, l, SParameter::Ty(*inner), vars, fuel, Ok(SParameter::Ty(t2)));
                }
            },
        },
    }
}

proof fn lemma_untouched_params_unchanged(env: SEnv, l: SLivePlaces, ps: Seq<SParameter>, vars: Seq<SVar>, fuel: nat, r: Result<Seq<SParameter>, SPopError>)
    requires
        !params_refs(ps, vars),
        params_results(env, l, ps, vars, fuel).contains(r),
    ensures
        r == Ok::<Seq<SParameter>, SPopError>(ps),
    decreases 2 * params_size(ps) + 1,
{
    if ps.len() > 0 {
        lemma_param_size_pos(ps[0]);
        let a = param_results(env, l, ps[0], vars, fuel);
        let rest = ps.subrange(1, ps.len() as int);
        let b = params_results(env, l, rest, vars, fuel);
        if exists|e: SPopError| #[trigger] a.contains(Err(e)) && r == Err::<Seq<SParameter>, SPopError>(e) {
            let e = choose|e: SPopError| #[trigger] a.contains(Err(e)) && r == Err::<Seq<SParameter>, SPopError>(e);
            law_untouched_param_unchanged(env, l, ps[0], vars, fuel, Err(e));
        } else {
            let (x, y) = choose|x: SParameter, y: Result<Seq<SParameter>, SPopError>| #![trigger a.contains(Ok(x)), b.contains(y)]
                a.contains(Ok(x)) && b.contains(y) && r == (match y {
                    Ok(ys) => Ok(seq![x] + ys),
                    Err(e) => Err(e),
                });
            law_untouched_param_unchanged(env, l, ps[0], vars, fuel, Ok(x));
            lemma_untouched_params_unchanged(env, l, rest, vars, fuel, y);
            assert(seq![ps[0]] + rest =~= ps);
        }
    } else {
        assert(ps =~= Seq::<SParameter>::empty());
    }
}

} // verus!
