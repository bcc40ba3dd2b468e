//! Liens on data local to the current function: the part of a permission
//! that matters to borrow checking.
use vstd::prelude::*;

use crate::env::{Env, SEnv};
use crate::grammar::{
    distinct_places, lemma_parameters_view, lemma_place_set_contains, parameters_view, place_set,
    Parameter, Perm, Place, SParameter, SPerm, SPlace, STy, Ty, Variable,
};
use crate::outcomes::{join, lemma_join_associative, lemma_join_commutative};
use crate::places::place_ty_of;
use crate::predicates::{
    lemma_param_size_pos, param_size, params_size, pp, prove_predicate, provable,
    ty_param,
};
use crate::grammar::ParameterPredicate;
use crate::grammar::Predicate;

verus! {

/// A borrow of a local place.
pub enum Lien {
    /// A shared borrow.
    Rf(Place),
    /// A mutable borrow.
    Mt(Place),
}

pub enum SLien {
    Rf(SPlace),
    Mt(SPlace),
}

impl View for Lien {
    type V = SLien;

    open spec fn view(&self) -> SLien {
        match self {
            Lien::Rf(p) => SLien::Rf(p@),
            Lien::Mt(p) => SLien::Mt(p@),
        }
    }
}

impl Lien {
    /// A shared borrow of `place`.
    pub fn rf(place: &Place) -> (r: Lien)
        ensures
            r@ == SLien::Rf(place@),
    {
        Lien::Rf(place.copy())
    }

    /// A mutable borrow of `place`.
    pub fn mt(place: &Place) -> (r: Lien)
        ensures
            r@ == SLien::Mt(place@),
    {
        Lien::Mt(place.copy())
    }

    pub fn copy(&self) -> (r: Lien)
        ensures
            r@ == self@,
    {
        match self {
            Lien::Rf(p) => Lien::Rf(p.copy()),
            Lien::Mt(p) => Lien::Mt(p.copy()),
        }
    }
}

/// The borrow a place is reached by, if any.
#[derive(PartialEq, Eq, Structural, Clone, Copy)]
pub enum Borrow {
    /// Moved out of the place: no lien of its own.
    Moved,
    /// Shared from the place.
    Rf,
    /// Leased from the place.
    Mt,
}

/// The lien a place reached by `b` holds of itself.
pub open spec fn own_liens(b: Borrow, q: SPlace) -> Set<SLien> {
    match b {
        Borrow::Moved => Set::empty(),
        Borrow::Rf => set![SLien::Rf(q)],
        Borrow::Mt => set![SLien::Mt(q)],
    }
}

/// The lien sets that can be derived for a value of `a` on local places;
/// empty when none can (a place without a type, a variable that is not
/// universal, an `Or`, or fuel run out: one unit per place looked up).
/// Owned and shared permissions hold no liens; moving, sharing or leasing
/// places holds the place's own lien (none, a share, a lease) together
/// with those of its type; the generic arguments of a named type, and the
/// places of a permission, join their lien sets.
pub open spec fn lien_sets_of(env: SEnv, a: SParameter, fuel: nat) -> Set<Set<SLien>>
    decreases fuel, 2 * param_size(a), 0nat,
{
    match a {
        SParameter::Perm(q) => match q {
            SPerm::Given => set![Set::empty()],
            SPerm::Shared => set![Set::empty()],
            SPerm::Mv(s) => places_lien_sets(env, Borrow::Moved, s, fuel),
            SPerm::Rf(s) => places_lien_sets(env, Borrow::Rf, s, fuel),
            SPerm::Mt(s) => places_lien_sets(env, Borrow::Mt, s, fuel),
            SPerm::Var(Variable::UniversalVar(_)) => set![Set::empty()],
            SPerm::Var(_) => Set::empty(),
            SPerm::Apply(l, r) => applied_sets(env, lien_sets_of(env, SParameter::Perm(*l), fuel), SParameter::Perm(*r),
                lien_sets_of(env, SParameter::Perm(*r), fuel), fuel),
            SPerm::Or(_) => Set::empty(),
        },
        SParameter::Ty(t) => match t {
            STy::NamedTy(n) => params_lien_sets(env, n.parameters, fuel),
            STy::ApplyPerm(l, r) => applied_sets(env, lien_sets_of(env, SParameter::Perm(l), fuel), SParameter::Ty(*r),
                lien_sets_of(env, SParameter::Ty(*r), fuel), fuel),
            STy::Var(Variable::UniversalVar(_)) => set![Set::empty()],
            STy::Var(_) => Set::empty(),
        },
    }
}

/// Applying a lien set of `ls` to one of `rs` (those of `r`): their
/// union or, when `r` is provably copy, the right-hand set alone.
pub open spec fn applied_sets(env: SEnv, ls: Set<Set<SLien>>, r: SParameter, rs: Set<Set<SLien>>, fuel: nat) -> Set<Set<SLien>> {
    Set::new(|x: Set<SLien>| exists|l: Set<SLien>, m: Set<SLien>| #![trigger ls.contains(l), rs.contains(m)]
        ls.contains(l) && rs.contains(m) && combines(l, m, provable(env, pp(ParameterPredicate::Copy, r), fuel), x))
}

/// The generic arguments `ps`, their lien sets joined.
pub open spec fn params_lien_sets(env: SEnv, ps: Seq<SParameter>, fuel: nat) -> Set<Set<SLien>>
    decreases fuel, 2 * params_size(ps) + 1, 0nat,
{
    if ps.len() == 0 {
        set![Set::empty()]
    } else {
        proof {
            lemma_param_size_pos(ps[0]);
        }
        join(lien_sets_of(env, ps[0], fuel), params_lien_sets(env, ps.subrange(1, ps.len() as int), fuel))
    }
}

/// The places of `s` reached by `b`, their lien sets joined (in any
/// order: see [`lemma_places_lien_sets_pick`]).
pub open spec fn places_lien_sets(env: SEnv, b: Borrow, s: Set<SPlace>, fuel: nat) -> Set<Set<SLien>>
    decreases fuel, 1nat, s.len(),
    when s.finite()
{
    if s.len() == 0 {
        set![Set::empty()]
    } else {
        let q = s.choose();
        join(place_lien_sets(env, b, q, fuel), places_lien_sets(env, b, s.remove(q), fuel))
    }
}

/// Any place of `s` can be taken first.
pub proof fn lemma_places_lien_sets_pick(env: SEnv, b: Borrow, s: Set<SPlace>, q: SPlace, fuel: nat)
    requires
        s.finite(),
        s.contains(q),
    ensures
        places_lien_sets(env, b, s, fuel) == join(place_lien_sets(env, b, q, fuel), places_lien_sets(env, b, s.remove(q), fuel)),
    decreases s.len(),
{
    let c = s.choose();
    assert(s.len() > 0) by {
        if s.len() == 0 {
            assert(s =~= Set::empty());
        }
    }
    if c != q {
        let sc = s.remove(c);
        let sq = s.remove(q);
        assert(sc.contains(q));
        assert(sq.contains(c));
        lemma_places_lien_sets_pick(env, b, sc, q, fuel);
        lemma_places_lien_sets_pick(env, b, sq, c, fuel);
        assert(sc.remove(q) =~= sq.remove(c));
        let pc = place_lien_sets(env, b, c, fuel);
        let pq = place_lien_sets(env, b, q, fuel);
        let rest = places_lien_sets(env, b, sc.remove(q), fuel);
        lemma_join_associative(pc, pq, rest);
        lemma_join_associative(pq, pc, rest);
        lemma_join_commutative(pc, pq);
    }
}

/// The lien sets of place `q` reached by `b`: its own lien with each lien
/// set of its type (looked up with one less unit of fuel).
pub open spec fn place_lien_sets(env: SEnv, b: Borrow, q: SPlace, fuel: nat) -> Set<Set<SLien>>
    decreases fuel, 0nat, 0nat,
{
    if fuel == 0 {
        Set::empty()
    } else {
        match place_ty_of(env, q) {
            Err(_) => Set::empty(),
            Ok(t) => join(set![own_liens(b, q)], lien_sets_of(env, ty_param(t), (fuel - 1) as nat)),
        }
    }
}

pub open spec fn lset(v: Seq<Lien>) -> Set<SLien> {
    v.map_values(|l: Lien| l@).to_set()
}

proof fn lemma_lset_append(a: Seq<Lien>, b: Seq<Lien>)
    ensures
        lset(a + b) == lset(a) + lset(b),
{
    let f = |l: Lien| l@;
    assert((a + b).map_values(f) =~= a.map_values(f) + b.map_values(f));
    let pa = a.map_values(f);
    let pb = b.map_values(f);
    assert forall|x: SLien| (pa + pb).to_set().contains(x) <==> (pa.to_set() + pb.to_set()).contains(x) by {
        if (pa + pb).contains(x) {
            let i = choose|i: int| 0 <= i < (pa + pb).len() && (pa + pb)[i] == x;
            if i < pa.len() {
                assert(pa[i] == x);
                assert(pa.contains(x));
            } else {
                assert(pb[i - pa.len()] == x);
                assert(pb.contains(x));
            }
        }
        if pa.contains(x) {
            let i = choose|i: int| 0 <= i < pa.len() && pa[i] == x;
            assert((pa + pb)[i] == x);
        }
        if pb.contains(x) {
            let i = choose|i: int| 0 <= i < pb.len() && pb[i] == x;
            assert((pa + pb)[i + pa.len()] == x);
        }
    }
    assert((pa + pb).to_set() =~= pa.to_set() + pb.to_set());
}

/// `a` followed by `b`.
fn concat_liens(a: Vec<Lien>, b: Vec<Lien>) -> (r: Vec<Lien>)
    ensures
        lset(r@) == lset(a@) + lset(b@),
{
    let mut r = a;
    let mut b = b;
    let ghost ra = r@;
    let ghost rb = b@;
    r.append(&mut b);
    proof {
        lemma_lset_append(ra, rb);
    }
    r
}

/// The lien a place reached by `b` holds of itself, as a list.
fn own_liens_exec(b: Borrow, place: &Place) -> (r: Vec<Lien>)
    ensures
        lset(r@) == own_liens(b, place@),
{
    match b {
        Borrow::Moved => {
            let r: Vec<Lien> = Vec::new();
            assert(lset(r@) =~= Set::<SLien>::empty());
            r
        },
        Borrow::Rf => {
            let r = vec![Lien::rf(place)];
            proof {
                let v = r@.map_values(|l: Lien| l@);
                assert(v[0] == SLien::Rf(place@));
                assert(v.contains(SLien::Rf(place@)));
                assert(lset(r@) =~= set![SLien::Rf(place@)]);
            }
            r
        },
        Borrow::Mt => {
            let r = vec![Lien::mt(place)];
            proof {
                let v = r@.map_values(|l: Lien| l@);
                assert(v[0] == SLien::Mt(place@));
                assert(v.contains(SLien::Mt(place@)));
                assert(lset(r@) =~= set![SLien::Mt(place@)]);
            }
            r
        },
    }
}

pub open spec fn osets(v: Seq<Vec<Lien>>) -> Set<Set<SLien>> {
    v.map_values(|x: Vec<Lien>| lset(x@)).to_set()
}

pub proof fn lemma_osets_contains(v: Seq<Vec<Lien>>, x: Set<SLien>)
    ensures
        osets(v).contains(x) <==> exists|i: int| 0 <= i < v.len() && lset(#[trigger] v[i]@) == x,
{
    let m = v.map_values(|y: Vec<Lien>| lset(y@));
    if osets(v).contains(x) {
        let i = choose|i: int| 0 <= i < m.len() && m[i] == x;
        assert(lset(v[i]@) == x);
    }
    if exists|i: int| 0 <= i < v.len() && lset(#[trigger] v[i]@) == x {
        let i = choose|i: int| 0 <= i < v.len() && lset(#[trigger] v[i]@) == x;
        assert(m[i] == x);
        assert(m.contains(x));
    }
}

fn copy_liens(v: &Vec<Lien>) -> (r: Vec<Lien>)
    ensures
        lset(r@) == lset(v@),
{
    let mut r: Vec<Lien> = Vec::new();
    let mut i: usize = 0;
    while i < v.len()
        invariant
            i <= v@.len(),
            r@.len() == i,
            forall|k: int| 0 <= k < i ==> #[trigger] r@[k]@ == v@[k]@,
        decreases v.len() - i,
    {
        r.push(v[i].copy());
        i = i + 1;
    }
    assert(r@.map_values(|l: Lien| l@) =~= v@.map_values(|l: Lien| l@));
    r
}

/// The outcomes holding the one lien set `l`.
fn one_set(l: Vec<Lien>) -> (r: Vec<Vec<Lien>>)
    ensures
        osets(r@) == set![lset(l@)],
{
    let mut r: Vec<Vec<Lien>> = Vec::new();
    r.push(l);
    proof {
        assert forall|x: Set<SLien>| osets(r@).contains(x) <==> x == lset(r@[0]@) by {
            lemma_osets_contains(r@, x);
        }
        assert(osets(r@) =~= set![lset(r@[0]@)]);
    }
    r
}

/// The outcomes holding the empty lien set alone.
fn no_liens_set() -> (r: Vec<Vec<Lien>>)
    ensures
        osets(r@) == set![Set::<SLien>::empty()],
{
    let l: Vec<Lien> = Vec::new();
    assert(lset(l@) =~= Set::<SLien>::empty());
    one_set(l)
}

/// No outcome at all.
fn no_sets() -> (r: Vec<Vec<Lien>>)
    ensures
        osets(r@) == Set::<Set<SLien>>::empty(),
{
    let r: Vec<Vec<Lien>> = Vec::new();
    assert(osets(r@) =~= Set::<Set<SLien>>::empty());
    r
}

fn append_sets(a: Vec<Vec<Lien>>, b: Vec<Vec<Lien>>) -> (r: Vec<Vec<Lien>>)
    ensures
        osets(r@) == osets(a@) + osets(b@),
{
    let mut r = a;
    let mut b = b;
    let ghost ra = r@;
    let ghost rb = b@;
    r.append(&mut b);
    proof {
        assert forall|x: Set<SLien>| osets(r@).contains(x) <==> (osets(ra) + osets(rb)).contains(x) by {
            lemma_osets_contains(r@, x);
            lemma_osets_contains(ra, x);
            lemma_osets_contains(rb, x);
            if exists|i: int| 0 <= i < r@.len() && lset(#[trigger] r@[i]@) == x {
                let i = choose|i: int| 0 <= i < r@.len() && lset(#[trigger] r@[i]@) == x;
                if i < ra.len() {
                    assert(ra[i] == r@[i]);
                } else {
                    assert(rb[i - ra.len()] == r@[i]);
                }
            }
            if exists|i: int| 0 <= i < ra.len() && lset(#[trigger] ra[i]@) == x {
                let i = choose|i: int| 0 <= i < ra.len() && lset(#[trigger] ra[i]@) == x;
                assert(r@[i] == ra[i]);
            }
            if exists|i: int| 0 <= i < rb.len() && lset(#[trigger] rb[i]@) == x {
                let i = choose|i: int| 0 <= i < rb.len() && lset(#[trigger] rb[i]@) == x;
                assert(r@[i + ra.len()] == rb[i]);
            }
        }
        assert(osets(r@) =~= osets(ra) + osets(rb));
    }
    r
}

/// `x` is the union of `l` and `m`, or, when `keep` is set, `m` alone.
pub open spec fn combines(l: Set<SLien>, m: Set<SLien>, keep: bool, x: Set<SLien>) -> bool {
    x == l.union(m) || (keep && x == m)
}

/// Every combination (see [`combines`]) of `l` with a set of `rs`.
fn apply_one(l: &Vec<Lien>, rs: &Vec<Vec<Lien>>, keep: bool) -> (r: Vec<Vec<Lien>>)
    ensures
        forall|x: Set<SLien>| osets(r@).contains(x) <==> exists|j: int| 0 <= j < rs@.len()
            && combines(lset(l@), lset(#[trigger] rs@[j]@), keep, x),
{
    let mut r: Vec<Vec<Lien>> = Vec::new();
    let mut j: usize = 0;
    while j < rs.len()
        invariant
            j <= rs@.len(),
            forall|x: Set<SLien>| osets(r@).contains(x) <==> exists|k: int| 0 <= k < j
                && combines(lset(l@), lset(#[trigger] rs@[k]@), keep, x),
        decreases rs.len() - j,
    {
        let u = concat_liens(copy_liens(l), copy_liens(&rs[j]));
        let mut step = one_set(u);
        if keep {
            step = append_sets(step, one_set(copy_liens(&rs[j])));
        }
        let ghost old_r = r@;
        proof {
            assert forall|x: Set<SLien>| osets(step@).contains(x) <==> combines(lset(l@), lset(rs@[j as int]@), keep, x) by {}
        }
        r = append_sets(r, step);
        proof {
            assert forall|x: Set<SLien>| osets(r@).contains(x) <==> exists|k: int| 0 <= k < j + 1
                && combines(lset(l@), lset(#[trigger] rs@[k]@), keep, x) by {
                if osets(old_r).contains(x) {
                    let k = choose|k: int| 0 <= k < j && combines(lset(l@), lset(#[trigger] rs@[k]@), keep, x);
                    assert(0 <= k < j + 1);
                }
                if osets(step@).contains(x) {
                    assert(combines(lset(l@), lset(rs@[j as int]@), keep, x));
                }
                if exists|k: int| 0 <= k < j + 1 && combines(lset(l@), lset(#[trigger] rs@[k]@), keep, x) {
                    let k = choose|k: int| 0 <= k < j + 1 && combines(lset(l@), lset(#[trigger] rs@[k]@), keep, x);
                    if k < j {
                        assert(osets(old_r).contains(x));
                    } else {
                        assert(osets(step@).contains(x));
                    }
                }
            }
        }
        j = j + 1;
    }
    r
}

/// Every combination (see [`combines`]) of a set of `ls` with a set of `rs`.
fn combine(ls: &Vec<Vec<Lien>>, rs: &Vec<Vec<Lien>>, keep: bool) -> (r: Vec<Vec<Lien>>)
    ensures
        forall|x: Set<SLien>| osets(r@).contains(x) <==> exists|l: Set<SLien>, m: Set<SLien>| #![trigger osets(ls@).contains(l), osets(rs@).contains(m)]
            osets(ls@).contains(l) && osets(rs@).contains(m) && combines(l, m, keep, x),
{
    let ghost sl = osets(ls@);
    let ghost sr = osets(rs@);
    let mut r: Vec<Vec<Lien>> = Vec::new();
    let mut i: usize = 0;
    while i < ls.len()
        invariant
            sl == osets(ls@),
            sr == osets(rs@),
            i <= ls@.len(),
            forall|x: Set<SLien>| osets(r@).contains(x) <==> exists|k: int, j: int| 0 <= k < i && 0 <= j < rs@.len()
                && combines(lset(#[trigger] ls@[k]@), lset(#[trigger] rs@[j]@), keep, x),
        decreases ls.len() - i,
    {
        let one = apply_one(&ls[i], rs, keep);
        let ghost old_r = r@;
        r = append_sets(r, one);
        proof {
            assert forall|x: Set<SLien>| osets(r@).contains(x) <==> exists|k: int, j: int| 0 <= k < i + 1 && 0 <= j < rs@.len()
                && combines(lset(#[trigger] ls@[k]@), lset(#[trigger] rs@[j]@), keep, x) by {
                if osets(old_r).contains(x) {
                    let (k, j) = choose|k: int, j: int| 0 <= k < i && 0 <= j < rs@.len()
                        && combines(lset(#[trigger] ls@[k]@), lset(#[trigger] rs@[j]@), keep, x);
                    assert(0 <= k < i + 1);
                }
                if osets(one@).contains(x) {
                    let j = choose|j: int| 0 <= j < rs@.len() && combines(lset(ls@[i as int]@), lset(#[trigger] rs@[j]@), keep, x);
                    assert(combines(lset(ls@[i as int]@), lset(rs@[j]@), keep, x));
                }
                if exists|k: int, j: int| 0 <= k < i + 1 && 0 <= j < rs@.len()
                    && combines(lset(#[trigger] ls@[k]@), lset(#[trigger] rs@[j]@), keep, x) {
                    let (k, j) = choose|k: int, j: int| 0 <= k < i + 1 && 0 <= j < rs@.len()
                        && combines(lset(#[trigger] ls@[k]@), lset(#[trigger] rs@[j]@), keep, x);
                    if k < i {
                        assert(osets(old_r).contains(x));
                    } else {
                        assert(combines(lset(ls@[i as int]@), lset(rs@[j]@), keep, x));
                        assert(osets(one@).contains(x));
                    }
                }
            }
        }
        i = i + 1;
    }
    proof {
        assert forall|x: Set<SLien>| osets(r@).contains(x) <==> exists|l: Set<SLien>, m: Set<SLien>| #![trigger sl.contains(l), sr.contains(m)]
            sl.contains(l) && sr.contains(m) && combines(l, m, keep, x) by {
            if osets(r@).contains(x) {
                let (k, j) = choose|k: int, j: int| 0 <= k < i && 0 <= j < rs@.len()
                    && combines(lset(#[trigger] ls@[k]@), lset(#[trigger] rs@[j]@), keep, x);
                lemma_osets_contains(ls@, lset(ls@[k]@));
                lemma_osets_contains(rs@, lset(rs@[j]@));
                assert(sl.contains(lset(ls@[k]@)) && sr.contains(lset(rs@[j]@)));
            }
            if exists|l: Set<SLien>, m: Set<SLien>| #![trigger sl.contains(l), sr.contains(m)]
                sl.contains(l) && sr.contains(m) && combines(l, m, keep, x) {
                let (l, m) = choose|l: Set<SLien>, m: Set<SLien>| #![trigger sl.contains(l), sr.contains(m)]
                    sl.contains(l) && sr.contains(m) && combines(l, m, keep, x);
                lemma_osets_contains(ls@, l);
                lemma_osets_contains(rs@, m);
                let k = choose|k: int| 0 <= k < ls@.len() && lset(#[trigger] ls@[k]@) == l;
                let j = choose|j: int| 0 <= j < rs@.len() && lset(#[trigger] rs@[j]@) == m;
                assert(combines(lset(ls@[k]@), lset(rs@[j]@), keep, x));
            }
        }
    }
    r
}

/// Every union of a set of `a` with one of `b` (see [`join`]).
fn join_sets(a: &Vec<Vec<Lien>>, b: &Vec<Vec<Lien>>) -> (r: Vec<Vec<Lien>>)
    ensures
        osets(r@) == join(osets(a@), osets(b@)),
{
    let r = combine(a, b, false);
    assert(osets(r@) =~= join(osets(a@), osets(b@)));
    r
}

/// The lien sets that can be derived for a value of `a` (see
/// [`lien_sets_of`]), one list per derivation.
pub fn liens(env: &Env, a: &Parameter, fuel: usize) -> (r: Vec<Vec<Lien>>)
    ensures
        osets(r@) == lien_sets_of(env@, a@, fuel as nat),
    decreases fuel, 2 * param_size(a@),
{
    match a {
        Parameter::Perm(q) => match q {
            Perm::Given | Perm::Shared => no_liens_set(),
            Perm::Mv(s) => {
                assert(a@ == SParameter::Perm(SPerm::Mv(place_set(s@))));
                places_sets_exec(env, Borrow::Moved, s, fuel)
            },
            Perm::Rf(s) => {
                assert(a@ == SParameter::Perm(SPerm::Rf(place_set(s@))));
                places_sets_exec(env, Borrow::Rf, s, fuel)
            },
            Perm::Mt(s) => {
                assert(a@ == SParameter::Perm(SPerm::Mt(place_set(s@))));
                places_sets_exec(env, Borrow::Mt, s, fuel)
            },
            Perm::Var(v) => {
                assert(a@ == SParameter::Perm(SPerm::Var(*v)));
                match v {
                    Variable::UniversalVar(_) => no_liens_set(),
                    _ => no_sets(),
                }
            },
            Perm::Apply(l, rr) => {
                let lp = Parameter::Perm((**l).copy());
                let rp = Parameter::Perm((**rr).copy());
                assert(a@ == SParameter::Perm(SPerm::Apply(Box::new(l@), Box::new(rr@))));
                assert(lp@ == SParameter::Perm(l@));
                assert(rp@ == SParameter::Perm(rr@));
                let ls = liens(env, &lp, fuel);
                let rs = liens(env, &rp, fuel);
                apply_sets_exec(env, &ls, &rp, &rs, fuel)
            },
            Perm::Or(_) => {
                assert(a@ is Perm && a@->Perm_0 is Or);
                no_sets()
            },
        },
        Parameter::Ty(t) => match t {
            Ty::NamedTy(n) => {
                assert(a@ == SParameter::Ty(STy::NamedTy(n@)));
                proof {
                    lemma_parameters_view(n.parameters@);
                    let pv = parameters_view(n.parameters@);
                    assert(pv.subrange(0, pv.len() as int) =~= pv);
                }
                params_sets_exec(env, &n.parameters, 0, fuel)
            },
            Ty::ApplyPerm(l, rr) => {
                let lp = Parameter::Perm(l.copy());
                let rp = Parameter::Ty((**rr).copy());
                assert(a@ == SParameter::Ty(STy::ApplyPerm(l@, Box::new(rr@))));
                assert(lp@ == SParameter::Perm(l@));
                assert(rp@ == SParameter::Ty(rr@));
                let ls = liens(env, &lp, fuel);
                let rs = liens(env, &rp, fuel);
                apply_sets_exec(env, &ls, &rp, &rs, fuel)
            },
            Ty::Var(v) => {
                assert(a@ == SParameter::Ty(STy::Var(*v)));
                match v {
                    Variable::UniversalVar(_) => no_liens_set(),
                    _ => no_sets(),
                }
            },
        },
    }
}

/// The lien sets of `l` applied to `r` (see [`applied_sets`]).
fn apply_sets_exec(env: &Env, ls: &Vec<Vec<Lien>>, r: &Parameter, rs: &Vec<Vec<Lien>>, fuel: usize) -> (out: Vec<Vec<Lien>>)
    ensures
        osets(out@) == applied_sets(env@, osets(ls@), r@, osets(rs@), fuel as nat),
{
    let copy = prove_predicate(env, &Predicate::Parameter(ParameterPredicate::Copy, r.copy()), fuel);
    let out = combine(ls, rs, copy);
    assert(osets(out@) =~= applied_sets(env@, osets(ls@), r@, osets(rs@), fuel as nat));
    out
}

/// The generic arguments `ps[i..]`, their lien sets joined.
fn params_sets_exec(env: &Env, ps: &Vec<Parameter>, i: usize, fuel: usize) -> (r: Vec<Vec<Lien>>)
    requires
        i <= ps@.len(),
    ensures
        osets(r@) == params_lien_sets(env@, parameters_view(ps@).subrange(i as int, ps@.len() as int), fuel as nat),
    decreases fuel, 2 * params_size(parameters_view(ps@).subrange(i as int, ps@.len() as int)) + 1,
{
    let ghost pv = parameters_view(ps@);
    let ghost sv = pv.subrange(i as int, ps@.len() as int);
    proof {
        lemma_parameters_view(ps@);
    }
    if i == ps.len() {
        return no_liens_set();
    }
    proof {
        lemma_param_size_pos(sv[0]);
        assert(sv[0] == ps@[i as int]@);
        assert(sv.subrange(1, sv.len() as int) =~= pv.subrange(i + 1, ps@.len() as int));
    }
    let first = liens(env, &ps[i], fuel);
    let rest = params_sets_exec(env, ps, i + 1, fuel);
    join_sets(&first, &rest)
}

/// The places of `places` reached by `b`, their lien sets joined.
fn places_sets_exec(env: &Env, b: Borrow, places: &Vec<Place>, fuel: usize) -> (r: Vec<Vec<Lien>>)
    ensures
        osets(r@) == places_lien_sets(env@, b, place_set(places@), fuel as nat),
    decreases fuel, 1nat,
{
    let ds = distinct_places(places);
    let ghost e = env@;
    let ghost f = fuel as nat;
    let mut acc = no_liens_set();
    proof {
        assert(place_set(ds@.subrange(0, 0)) =~= Set::<SPlace>::empty()) by {
            crate::grammar::lemma_place_set_empty();
            assert(ds@.subrange(0, 0) =~= Seq::<Place>::empty());
        }
    }
    let mut i: usize = 0;
    while i < ds.len()
        invariant
            e == env@,
            f == fuel as nat,
            i <= ds@.len(),
            forall|x: int, y: int| 0 <= x < y < ds@.len() ==> ds@[x]@ != ds@[y]@,
            place_set(ds@) == place_set(places@),
            osets(acc@) == places_lien_sets(e, b, place_set(ds@.subrange(0, i as int)), f),
        decreases ds.len() - i,
    {
        let one = place_sets_exec(env, b, &ds[i], fuel);
        let ghost q = ds@[i as int]@;
        let ghost before = place_set(ds@.subrange(0, i as int));
        let ghost after = place_set(ds@.subrange(0, i + 1));
        proof {
            assert(ds@.subrange(0, i + 1) =~= ds@.subrange(0, i as int).push(ds@[i as int]));
            crate::grammar::lemma_place_set_push(ds@.subrange(0, i as int), ds@[i as int]);
            assert(after == before.insert(q));
            assert(!before.contains(q)) by {
                lemma_place_set_contains(ds@.subrange(0, i as int), q);
                if before.contains(q) {
                    let k = choose|k: int| 0 <= k < i && #[trigger] ds@.subrange(0, i as int)[k]@ == q;
                    assert(ds@[k]@ == ds@[i as int]@);
                }
            }
            vstd::seq_lib::seq_to_set_is_finite(ds@.subrange(0, i + 1).map_values(|p: Place| p@));
            lemma_places_lien_sets_pick(e, b, after, q, f);
            assert(after.remove(q) =~= before);
            lemma_join_commutative(place_lien_sets(e, b, q, f), places_lien_sets(e, b, before, f));
        }
        acc = join_sets(&acc, &one);
        i = i + 1;
    }
    proof {
        assert(ds@.subrange(0, ds@.len() as int) =~= ds@);
    }
    acc
}

/// The lien sets of place `place` reached by `b` (see [`place_lien_sets`]).
fn place_sets_exec(env: &Env, b: Borrow, place: &Place, fuel: usize) -> (r: Vec<Vec<Lien>>)
    ensures
        osets(r@) == place_lien_sets(env@, b, place@, fuel as nat),
    decreases fuel, 0nat,
{
    if fuel == 0 {
        return no_sets();
    }
    match env.place_ty(place) {
        Err(_) => no_sets(),
        Ok(t) => {
            let tp = Parameter::Ty(t);
            assert(tp@ == ty_param(t@));
            let inner = liens(env, &tp, fuel - 1);
            join_sets(&one_set(own_liens_exec(b, place)), &inner)
        },
    }
}

/// Each lien set of a place reached by `b` holds the place's own lien.
proof fn lemma_place_holds_own_lien(env: SEnv, b: Borrow, q: SPlace, fuel: nat, l: Set<SLien>)
    requires
        place_lien_sets(env, b, q, fuel).contains(l),
    ensures
        own_liens(b, q).subset_of(l),
{
    if fuel > 0 {
        if let Ok(t) = place_ty_of(env, q) {
            let one = set![own_liens(b, q)];
            let inner = lien_sets_of(env, ty_param(t), (fuel - 1) as nat);
            let (o, k) = choose|o: Set<SLien>, k: Set<SLien>| #![trigger one.contains(o), inner.contains(k)]
                one.contains(o) && inner.contains(k) && l == o.union(k);
            assert(o == own_liens(b, q));
        }
    }
}

/// Each lien set of the places `s` reached by `b` holds the own lien of
/// each of them.
proof fn lemma_places_hold_own_liens(env: SEnv, b: Borrow, s: Set<SPlace>, q: SPlace, fuel: nat, x: Set<SLien>)
    requires
        s.finite(),
        s.contains(q),
        places_lien_sets(env, b, s, fuel).contains(x),
    ensures
        own_liens(b, q).subset_of(x),
{
    lemma_places_lien_sets_pick(env, b, s, q, fuel);
    let one = place_lien_sets(env, b, q, fuel);
    let rest = places_lien_sets(env, b, s.remove(q), fuel);
    let (l, m) = choose|l: Set<SLien>, m: Set<SLien>| #![trigger one.contains(l), rest.contains(m)]
        one.contains(l) && rest.contains(m) && x == l.union(m);
    lemma_place_holds_own_lien(env, b, q, fuel, l);
}

/// Borrowing from a place holds a lien on that place: every lien set that
/// can be derived for a share (or lease) of places includes a share (or
/// lease) of each of them.
pub proof fn law_borrows_hold_liens(env: SEnv, s: Set<SPlace>, q: SPlace, fuel: nat, x: Set<SLien>)
    requires
        s.finite(),
        s.contains(q),
    ensures
        lien_sets_of(env, SParameter::Perm(SPerm::Rf(s)), fuel).contains(x) ==> x.contains(SLien::Rf(q)),
        lien_sets_of(env, SParameter::Perm(SPerm::Mt(s)), fuel).contains(x) ==> x.contains(SLien::Mt(q)),
{
    if lien_sets_of(env, SParameter::Perm(SPerm::Rf(s)), fuel).contains(x) {
        assert(lien_sets_of(env, SParameter::Perm(SPerm::Rf(s)), fuel) == places_lien_sets(env, Borrow::Rf, s, fuel));
        lemma_places_hold_own_liens(env, Borrow::Rf, s, q, fuel, x);
        assert(own_liens(Borrow::Rf, q).contains(SLien::Rf(q)));
    }
    if lien_sets_of(env, SParameter::Perm(SPerm::Mt(s)), fuel).contains(x) {
        assert(lien_sets_of(env, SParameter::Perm(SPerm::Mt(s)), fuel) == places_lien_sets(env, Borrow::Mt, s, fuel));
        lemma_places_hold_own_liens(env, Borrow::Mt, s, q, fuel, x);
        assert(own_liens(Borrow::Mt, q).contains(SLien::Mt(q)));
    }
}

} // verus!
