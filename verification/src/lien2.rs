//! Lien sets: the granular elements that together make up a permission.
use vstd::prelude::*;

use crate::env::{var_predicate, Env, SEnv};
use crate::grammar::{
    lemma_perms_view, lemma_place_set_contains, perms_view, place_set, NamedTy, Parameter,
    ParameterPredicate, Perm, Place, SNamedTy, SParameter, SPerm, SPlace, STy, Ty, UniversalVar,
    Variable,
};
use crate::ownership::lemma_perms_size_front;
use crate::outcomes::{join, lemma_join_associative, lemma_join_commutative};
use crate::places::place_ty_of;
use crate::predicates::{lemma_param_size_pos, param_size, perms_size, ty_param};

verus! {

/// The kind of data a value holds.
pub enum Data {
    /// A generic type variable.
    Var(UniversalVar),
    /// A named type.
    NamedTy(NamedTy),
    /// No data at all: the liens of a permission.
    NoData,
}

pub enum SData {
    Var(UniversalVar),
    NamedTy(SNamedTy),
    NoData,
}

impl View for Data {
    type V = SData;

    open spec fn view(&self) -> SData {
        match self {
            Data::Var(v) => SData::Var(*v),
            Data::NamedTy(n) => SData::NamedTy(n@),
            Data::NoData => SData::NoData,
        }
    }
}

/// What a value may do, and what would invalidate it.
pub enum Lien {
    /// The value can be copied.
    Copy,
    /// The value holds data lent from other values.
    Lent,
    /// The value is invalidated if the place is accessed.
    Shared(Place),
    /// The value is invalidated if the place is written.
    Leased(Place),
    /// Whatever permissions come from the generic variable.
    Var(UniversalVar),
}

pub enum SLien {
    Copy,
    Lent,
    Shared(SPlace),
    Leased(SPlace),
    Var(UniversalVar),
}

impl View for Lien {
    type V = SLien;

    open spec fn view(&self) -> SLien {
        match self {
            Lien::Copy => SLien::Copy,
            Lien::Lent => SLien::Lent,
            Lien::Shared(p) => SLien::Shared(p@),
            Lien::Leased(p) => SLien::Leased(p@),
            Lien::Var(v) => SLien::Var(*v),
        }
    }
}

/// A set of liens.
pub struct LienSet {
    pub elements: Vec<Lien>,
}

impl View for LienSet {
    type V = Set<SLien>;

    open spec fn view(&self) -> Set<SLien> {
        self.elements@.map_values(|l: Lien| l@).to_set()
    }
}

/// The liens on a value together with the kind of its data.
pub struct LienData {
    pub liens: LienSet,
    pub data: Data,
}

/// A lien that makes the value copyable: `copy`, or a variable assumed to
/// be copy.
pub open spec fn lien_is_copy_spec(env: SEnv, l: SLien) -> bool {
    match l {
        SLien::Copy => true,
        SLien::Var(v) => env.assumptions.contains(var_predicate(v, ParameterPredicate::Copy)),
        _ => false,
    }
}

/// A lien of an owned value: a variable assumed to be owned.
pub open spec fn lien_is_owned_spec(env: SEnv, l: SLien) -> bool {
    match l {
        SLien::Var(v) => env.assumptions.contains(var_predicate(v, ParameterPredicate::Owned)),
        _ => false,
    }
}

/// A set holding a lien that makes the value copyable.
pub open spec fn lien_set_is_copy_spec(env: SEnv, s: Set<SLien>) -> bool {
    exists|l: SLien| s.contains(l) && lien_is_copy_spec(env, l)
}

/// A set all of whose liens are owned.
pub open spec fn lien_set_is_owned_spec(env: SEnv, s: Set<SLien>) -> bool {
    forall|l: SLien| s.contains(l) ==> lien_is_owned_spec(env, l)
}

impl Lien {
    pub fn copy(&self) -> (r: Lien)
        ensures
            r@ == self@,
    {
        match self {
            Lien::Copy => Lien::Copy,
            Lien::Lent => Lien::Lent,
            Lien::Shared(p) => Lien::Shared(p.copy()),
            Lien::Leased(p) => Lien::Leased(p.copy()),
            Lien::Var(v) => Lien::Var(*v),
        }
    }
}

/// True if `lien` makes the value copyable.
pub fn lien_is_copy(env: &Env, lien: &Lien) -> (r: bool)
    ensures
        r == lien_is_copy_spec(env@, lien@),
{
    match lien {
        Lien::Copy => true,
        Lien::Var(v) => env.is(v, ParameterPredicate::Copy),
        _ => false,
    }
}

/// True if `lien` is the lien of an owned value.
pub fn lien_is_owned(env: &Env, lien: &Lien) -> (r: bool)
    ensures
        r == lien_is_owned_spec(env@, lien@),
{
    match lien {
        Lien::Var(v) => env.is(v, ParameterPredicate::Owned),
        _ => false,
    }
}

/// True if one of the liens makes the value copyable.
pub fn lien_set_is_copy(env: &Env, liens: &LienSet) -> (r: bool)
    ensures
        r == lien_set_is_copy_spec(env@, liens@),
{
    let ghost lv = liens.elements@.map_values(|l: Lien| l@);
    let mut i: usize = 0;
    while i < liens.elements.len()
        invariant
            lv == liens.elements@.map_values(|l: Lien| l@),
            i <= lv.len(),
            forall|j: int| 0 <= j < i ==> !lien_is_copy_spec(env@, #[trigger] lv[j]),
        decreases liens.elements.len() - i,
    {
        assert(lv[i as int] == liens.elements@[i as int]@);
        if lien_is_copy(env, &liens.elements[i]) {
            assert(lv.to_set().contains(lv[i as int]));
            return true;
        }
        i = i + 1;
    }
    assert forall|l: SLien| !(liens@.contains(l) && lien_is_copy_spec(env@, l)) by {
        if lv.contains(l) {
            let j = choose|j: int| 0 <= j < lv.len() && lv[j] == l;
            assert(!lien_is_copy_spec(env@, lv[j]));
        }
    }
    false
}

/// True if every lien is the lien of an owned value.
pub fn lien_set_is_owned(env: &Env, liens: &LienSet) -> (r: bool)
    ensures
        r == lien_set_is_owned_spec(env@, liens@),
{
    let ghost lv = liens.elements@.map_values(|l: Lien| l@);
    let mut i: usize = 0;
    while i < liens.elements.len()
        invariant
            lv == liens.elements@.map_values(|l: Lien| l@),
            i <= lv.len(),
            forall|j: int| 0 <= j < i ==> lien_is_owned_spec(env@, #[trigger] lv[j]),
        decreases liens.elements.len() - i,
    {
        assert(lv[i as int] == liens.elements@[i as int]@);
        if !lien_is_owned(env, &liens.elements[i]) {
            assert(lv.to_set().contains(lv[i as int]));
            return false;
        }
        i = i + 1;
    }
    assert forall|l: SLien| liens@.contains(l) implies lien_is_owned_spec(env@, l) by {
        let j = choose|j: int| 0 <= j < lv.len() && lv[j] == l;
        assert(lien_is_owned_spec(env@, lv[j]));
    }
    true
}

impl LienSet {
    pub fn copy(&self) -> (r: LienSet)
        ensures
            r@ == self@,
    {
        let mut elements: Vec<Lien> = Vec::new();
        let mut i: usize = 0;
        while i < self.elements.len()
            invariant
                i <= self.elements@.len(),
                elements@.len() == i,
                forall|j: int| 0 <= j < i ==> #[trigger] elements@[j]@ == self.elements@[j]@,
            decreases self.elements.len() - i,
        {
            elements.push(self.elements[i].copy());
            i = i + 1;
        }
        let r = LienSet { elements };
        assert(r.elements@.map_values(|l: Lien| l@) =~= self.elements@.map_values(|l: Lien| l@));
        r
    }

    /// The liens of both `self` and `other`.
    pub fn union(&self, other: &LienSet) -> (r: LienSet)
        ensures
            r@ == other@.union(self@),
    {
        let mut r = other.copy();
        let ghost ov = other.elements@.map_values(|l: Lien| l@);
        let ghost sv = self.elements@.map_values(|l: Lien| l@);
        assert(r.elements@.map_values(|l: Lien| l@).to_set() == ov.to_set());
        let mut i: usize = 0;
        while i < self.elements.len()
            invariant
                ov == other.elements@.map_values(|l: Lien| l@),
                sv == self.elements@.map_values(|l: Lien| l@),
                i <= sv.len(),
                r@ == ov.to_set().union(sv.subrange(0, i as int).to_set()),
            decreases self.elements.len() - i,
        {
            let ghost before = r.elements@.map_values(|l: Lien| l@);
            assert(r@ == before.to_set());
            r.elements.push(self.elements[i].copy());
            proof {
                let after = r.elements@.map_values(|l: Lien| l@);
                assert(after =~= before.push(sv[i as int]));
                assert(sv.subrange(0, i + 1) =~= sv.subrange(0, i as int).push(sv[i as int]));
                assert forall|x: SLien| after.contains(x) <==> (before.contains(x) || x == sv[i as int]) by {
                    if after.contains(x) {
                        let k = choose|k: int| 0 <= k < after.len() && after[k] == x;
                        if k < before.len() {
                            assert(before[k] == x);
                        }
                    }
                    if before.contains(x) {
                        let k = choose|k: int| 0 <= k < before.len() && before[k] == x;
                        assert(after[k] == x);
                    }
                    if x == sv[i as int] {
                        assert(after[before.len() as int] == x);
                    }
                }
                let prev = sv.subrange(0, i as int);
                let next = sv.subrange(0, i + 1);
                assert forall|x: SLien| next.contains(x) <==> (prev.contains(x) || x == sv[i as int]) by {
                    if next.contains(x) {
                        let k = choose|k: int| 0 <= k < next.len() && next[k] == x;
                        if k < prev.len() {
                            assert(prev[k] == x);
                        }
                    }
                    if prev.contains(x) {
                        let k = choose|k: int| 0 <= k < prev.len() && prev[k] == x;
                        assert(next[k] == x);
                    }
                    if x == sv[i as int] {
                        assert(next[i as int] == x);
                    }
                }
                assert(before.to_set() == ov.to_set().union(prev.to_set()));
                assert forall|x: SLien| after.to_set().contains(x) <==> ov.to_set().union(next.to_set()).contains(x) by {
                    assert(before.to_set().contains(x) == before.contains(x));
                }
                assert(after.to_set() =~= ov.to_set().union(next.to_set()));
            }
            i = i + 1;
        }
        assert(sv.subrange(0, sv.len() as int) =~= sv);
        r
    }
}

/// What applying the liens `l` to the liens `r` may give: `r` alone when
/// `r` makes the value copyable, and in every case their union.
pub fn apply_liens(env: &Env, l: &LienSet, r: &LienSet) -> (out: Vec<LienSet>)
    ensures
        lien_set_is_copy_spec(env@, r@) ==> out@.len() == 2 && out@[0]@ == r@ && out@[1]@ == l@.union(r@),
        !lien_set_is_copy_spec(env@, r@) ==> out@.len() == 1 && out@[0]@ == l@.union(r@),
{
    let mut out: Vec<LienSet> = Vec::new();
    if lien_set_is_copy(env, r) {
        out.push(r.copy());
    }
    out.push(r.union(l));
    out
}

// ---------------------------------------------------------------------------
// The possible lien sets of a parameter
// ---------------------------------------------------------------------------

/// The possible results of applying each set of `ls` to each set of `rs`:
/// their union, or the right-hand set alone when it makes the value
/// copyable.
pub open spec fn apply_outcomes(env: SEnv, ls: Set<Set<SLien>>, rs: Set<Set<SLien>>) -> Set<Set<SLien>> {
    Set::new(|x: Set<SLien>| exists|l: Set<SLien>, r: Set<SLien>| #![trigger ls.contains(l), rs.contains(r)]
        ls.contains(l) && rs.contains(r) && applied(env, l, r, x))
}

/// `x` is a result of applying `l` to `r`: their union, or `r` alone when
/// it makes the value copyable.
pub open spec fn applied(env: SEnv, l: Set<SLien>, r: Set<SLien>, x: Set<SLien>) -> bool {
    x == l.union(r) || (lien_set_is_copy_spec(env, r) && x == r)
}

/// The shares of the places of `s`.
pub open spec fn shared_liens(s: Set<SPlace>) -> Set<SLien> {
    Set::new(|l: SLien| l matches SLien::Shared(q) && s.contains(q))
}

/// The leases of the places of `s`.
pub open spec fn leased_liens(s: Set<SPlace>) -> Set<SLien> {
    Set::new(|l: SLien| l matches SLien::Leased(q) && s.contains(q))
}

/// The possible lien sets of a universal variable: the variable itself,
/// or nothing at all when it is assumed both owned and moved.
pub open spec fn var_outcomes(env: SEnv, v: UniversalVar) -> Set<Set<SLien>> {
    if env.assumptions.contains(var_predicate(v, ParameterPredicate::Owned))
        && env.assumptions.contains(var_predicate(v, ParameterPredicate::Move)) {
        set![set![SLien::Var(v)], Set::empty()]
    } else {
        set![set![SLien::Var(v)]]
    }
}

/// The lien sets that can be derived for `a`; empty when none can (a place
/// without a type, a variable that is not universal, fuel run out: one
/// unit per place looked up). `my` and named types have no liens, `our` is
/// copy, a share or lease of places adds liens on them (applied to those
/// of the places' types), moving from places has the liens of their
/// types, applications apply (see [`apply_outcomes`]) and alternatives join.
pub open spec fn lien_outcomes(env: SEnv, a: SParameter, fuel: nat) -> Set<Set<SLien>>
    decreases fuel, 2 * param_size(a), 0nat,
{
    match a {
        SParameter::Perm(q) => match q {
            SPerm::Given => set![Set::empty()],
            SPerm::Shared => set![set![SLien::Copy]],
            SPerm::Rf(s) => apply_outcomes(env, set![set![SLien::Copy, SLien::Lent] + shared_liens(s)], places_outcomes(env, s, fuel)),
            SPerm::Mt(s) => apply_outcomes(env, set![set![SLien::Lent] + leased_liens(s)], places_outcomes(env, s, fuel)),
            SPerm::Mv(s) => places_outcomes(env, s, fuel),
            SPerm::Var(Variable::UniversalVar(v)) => var_outcomes(env, v),
            SPerm::Var(_) => Set::empty(),
            SPerm::Apply(l, r) => apply_outcomes(env, lien_outcomes(env, SParameter::Perm(*l), fuel), lien_outcomes(env, SParameter::Perm(*r), fuel)),
            SPerm::Or(ps) => or_outcomes(env, ps, fuel),
        },
        SParameter::Ty(t) => match t {
            STy::NamedTy(_) => set![Set::empty()],
            STy::ApplyPerm(l, r) => apply_outcomes(env, lien_outcomes(env, SParameter::Perm(l), fuel), lien_outcomes(env, SParameter::Ty(*r), fuel)),
            STy::Var(Variable::UniversalVar(v)) => var_outcomes(env, v),
            STy::Var(_) => Set::empty(),
        },
    }
}

/// The alternatives of an `Or`, joined.
pub open spec fn or_outcomes(env: SEnv, ps: Seq<SPerm>, fuel: nat) -> Set<Set<SLien>>
    decreases fuel, 2 * perms_size(ps) + 1, 0nat,
{
    if ps.len() == 0 {
        set![Set::empty()]
    } else {
        proof {
            lemma_perms_size_front(ps);
            lemma_param_size_pos(SParameter::Perm(ps[0]));
        }
        join(lien_outcomes(env, SParameter::Perm(ps[0]), fuel), or_outcomes(env, ps.subrange(1, ps.len() as int), fuel))
    }
}

/// The places of `s`, joined (in any order: see
/// [`lemma_places_outcomes_pick`]).
pub open spec fn places_outcomes(env: SEnv, s: Set<SPlace>, fuel: nat) -> Set<Set<SLien>>
    decreases fuel, 1nat, s.len(),
    when s.finite()
{
    if s.len() == 0 {
        set![Set::empty()]
    } else {
        let q = s.choose();
        join(place_outcomes(env, q, fuel), places_outcomes(env, s.remove(q), fuel))
    }
}

/// The lien sets of the type of place `q`, looked up with one less unit
/// of fuel.
pub open spec fn place_outcomes(env: SEnv, q: SPlace, fuel: nat) -> Set<Set<SLien>>
    decreases fuel, 0nat, 0nat,
{
    if fuel == 0 {
        Set::empty()
    } else {
        match place_ty_of(env, q) {
            Err(_) => Set::empty(),
            Ok(t) => lien_outcomes(env, ty_param(t), (fuel - 1) as nat),
        }
    }
}

/// Any place of `s` can be taken first.
proof fn lemma_places_outcomes_pick(env: SEnv, s: Set<SPlace>, q: SPlace, fuel: nat)
    requires
        s.finite(),
        s.contains(q),
    ensures
        places_outcomes(env, s, fuel) == join(place_outcomes(env, q, fuel), places_outcomes(env, s.remove(q), fuel)),
    decreases s.len(),
{
    let c = s.choose();
    assert(s.len() > 0) by {
        if s.len() == 0 {
            assert(s =~= Set::empty());
        }
    }
    if c != q {
        let sc = s.remove(c);
        let sq = s.remove(q);
        assert(sc.contains(q));
        assert(sq.contains(c));
        lemma_places_outcomes_pick(env, sc, q, fuel);
        lemma_places_outcomes_pick(env, sq, c, fuel);
        assert(sc.remove(q) =~= sq.remove(c));
        let pc = place_outcomes(env, c, fuel);
        let pq = place_outcomes(env, q, fuel);
        let rest = places_outcomes(env, sc.remove(q), fuel);
        lemma_join_associative(pc, pq, rest);
        lemma_join_associative(pq, pc, rest);
        lemma_join_commutative(pc, pq);
    }
}

pub open spec fn oset(v: Seq<LienSet>) -> Set<Set<SLien>> {
    v.map_values(|s: LienSet| s@).to_set()
}

pub proof fn lemma_oset_contains(v: Seq<LienSet>, x: Set<SLien>)
    ensures
        oset(v).contains(x) <==> exists|i: int| 0 <= i < v.len() && #[trigger] v[i]@ == x,
{
    let m = v.map_values(|s: LienSet| s@);
    if oset(v).contains(x) {
        let i = choose|i: int| 0 <= i < m.len() && m[i] == x;
        assert(v[i]@ == x);
    }
    if exists|i: int| 0 <= i < v.len() && #[trigger] v[i]@ == x {
        let i = choose|i: int| 0 <= i < v.len() && #[trigger] v[i]@ == x;
        assert(m[i] == x);
        assert(m.contains(x));
    }
}

/// The empty lien set.
fn no_liens() -> (r: LienSet)
    ensures
        r@ == Set::<SLien>::empty(),
{
    let r = LienSet { elements: Vec::new() };
    assert(r@ =~= Set::<SLien>::empty());
    r
}

/// The list holding the one lien set `s`.
fn one_outcome(s: LienSet) -> (r: Vec<LienSet>)
    ensures
        oset(r@) == set![s@],
{
    let r = vec![s];
    proof {
        assert forall|x: Set<SLien>| oset(r@).contains(x) <==> x == r@[0]@ by {
            lemma_oset_contains(r@, x);
        }
        assert(oset(r@) =~= set![r@[0]@]);
    }
    r
}

/// Appends the outcomes of `b` to `a`.
fn append_outcomes(a: Vec<LienSet>, b: Vec<LienSet>) -> (r: Vec<LienSet>)
    ensures
        oset(r@) == oset(a@) + oset(b@),
{
    let mut r = a;
    let mut b = b;
    let ghost ra = r@;
    let ghost rb = b@;
    r.append(&mut b);
    proof {
        assert forall|x: Set<SLien>| oset(r@).contains(x) <==> (oset(ra) + oset(rb)).contains(x) by {
            lemma_oset_contains(r@, x);
            lemma_oset_contains(ra, x);
            lemma_oset_contains(rb, x);
            if exists|i: int| 0 <= i < r@.len() && #[trigger] r@[i]@ == x {
                let i = choose|i: int| 0 <= i < r@.len() && #[trigger] r@[i]@ == x;
                if i < ra.len() {
                    assert(ra[i]@ == x);
                } else {
                    assert(rb[i - ra.len()]@ == x);
                }
            }
            if exists|i: int| 0 <= i < ra.len() && #[trigger] ra[i]@ == x {
                let i = choose|i: int| 0 <= i < ra.len() && #[trigger] ra[i]@ == x;
                assert(r@[i]@ == x);
            }
            if exists|i: int| 0 <= i < rb.len() && #[trigger] rb[i]@ == x {
                let i = choose|i: int| 0 <= i < rb.len() && #[trigger] rb[i]@ == x;
                assert(r@[i + ra.len()]@ == x);
            }
        }
        assert(oset(r@) =~= oset(ra) + oset(rb));
    }
    r
}

/// Every union of `l` with a set of `b`.
fn join_one(l: &LienSet, b: &Vec<LienSet>) -> (r: Vec<LienSet>)
    ensures
        forall|x: Set<SLien>| oset(r@).contains(x) <==> exists|j: int| 0 <= j < b@.len() && x == l@.union(#[trigger] b@[j]@),
{
    let mut r: Vec<LienSet> = Vec::new();
    let mut j: usize = 0;
    while j < b.len()
        invariant
            j <= b@.len(),
            r@.len() == j,
            forall|k: int| 0 <= k < j ==> #[trigger] r@[k]@ == l@.union(b@[k]@),
        decreases b.len() - j,
    {
        let u = b[j].union(l);
        r.push(u);
        j = j + 1;
    }
    proof {
        assert forall|x: Set<SLien>| oset(r@).contains(x) <==> exists|k: int| 0 <= k < b@.len() && x == l@.union(#[trigger] b@[k]@) by {
            lemma_oset_contains(r@, x);
            if exists|k: int| 0 <= k < b@.len() && x == l@.union(#[trigger] b@[k]@) {
                let k = choose|k: int| 0 <= k < b@.len() && x == l@.union(#[trigger] b@[k]@);
                assert(r@[k]@ == x);
            }
        }
    }
    r
}

/// Every union of a set of `a` with a set of `b` (see [`join`]).
fn join_exec(a: &Vec<LienSet>, b: &Vec<LienSet>) -> (r: Vec<LienSet>)
    ensures
        oset(r@) == join(oset(a@), oset(b@)),
{
    let ghost sa = oset(a@);
    let ghost sb = oset(b@);
    let mut r: Vec<LienSet> = Vec::new();
    let mut i: usize = 0;
    while i < a.len()
        invariant
            sa == oset(a@),
            sb == oset(b@),
            i <= a@.len(),
            forall|x: Set<SLien>| oset(r@).contains(x) <==> exists|k: int, j: int| 0 <= k < i && 0 <= j < b@.len()
                && x == (#[trigger] a@[k]@).union(#[trigger] b@[j]@),
        decreases a.len() - i,
    {
        let one = join_one(&a[i], b);
        let ghost old_r = r@;
        r = append_outcomes(r, one);
        proof {
            assert forall|x: Set<SLien>| oset(r@).contains(x) <==> exists|k: int, j: int| 0 <= k < i + 1 && 0 <= j < b@.len()
                && x == (#[trigger] a@[k]@).union(#[trigger] b@[j]@) by {
                if oset(old_r).contains(x) {
                    let (k, j) = choose|k: int, j: int| 0 <= k < i && 0 <= j < b@.len() && x == (#[trigger] a@[k]@).union(#[trigger] b@[j]@);
                }
                if exists|k: int, j: int| 0 <= k < i + 1 && 0 <= j < b@.len() && x == (#[trigger] a@[k]@).union(#[trigger] b@[j]@) {
                    let (k, j) = choose|k: int, j: int| 0 <= k < i + 1 && 0 <= j < b@.len() && x == (#[trigger] a@[k]@).union(#[trigger] b@[j]@);
                    if k < i {
                        assert(oset(old_r).contains(x));
                    } else {
                        assert(oset(one@).contains(x));
                    }
                }
            }
        }
        i = i + 1;
    }
    proof {
        assert forall|x: Set<SLien>| oset(r@).contains(x) <==> join(sa, sb).contains(x) by {
            if oset(r@).contains(x) {
                let (k, j) = choose|k: int, j: int| 0 <= k < a@.len() && 0 <= j < b@.len() && x == (#[trigger] a@[k]@).union(#[trigger] b@[j]@);
                lemma_oset_contains(a@, a@[k]@);
                lemma_oset_contains(b@, b@[j]@);
                assert(sa.contains(a@[k]@) && sb.contains(b@[j]@));
            }
            if join(sa, sb).contains(x) {
                let (l, m) = choose|l: Set<SLien>, m: Set<SLien>| #![trigger sa.contains(l), sb.contains(m)]
                    sa.contains(l) && sb.contains(m) && x == l.union(m);
                lemma_oset_contains(a@, l);
                lemma_oset_contains(b@, m);
                let k = choose|k: int| 0 <= k < a@.len() && #[trigger] a@[k]@ == l;
                let j = choose|j: int| 0 <= j < b@.len() && #[trigger] b@[j]@ == m;
                assert(x == a@[k]@.union(b@[j]@));
            }
        }
        assert(oset(r@) =~= join(sa, sb));
    }
    r
}

/// Every result of applying `l` to a set of `rs`.
fn apply_one(env: &Env, l: &LienSet, rs: &Vec<LienSet>) -> (r: Vec<LienSet>)
    ensures
        forall|x: Set<SLien>| oset(r@).contains(x) <==> exists|j: int| 0 <= j < rs@.len()
            && applied(env@, l@, #[trigger] rs@[j]@, x),
{
    let mut r: Vec<LienSet> = Vec::new();
    let mut j: usize = 0;
    while j < rs.len()
        invariant
            j <= rs@.len(),
            forall|x: Set<SLien>| oset(r@).contains(x) <==> exists|k: int| 0 <= k < j
                && applied(env@, l@, #[trigger] rs@[k]@, x),
        decreases rs.len() - j,
    {
        let out = apply_liens(env, l, &rs[j]);
        let ghost old_r = r@;
        proof {
            assert forall|x: Set<SLien>| oset(out@).contains(x) <==> (x == l@.union(rs@[j as int]@)
                || (lien_set_is_copy_spec(env@, rs@[j as int]@) && x == rs@[j as int]@)) by {
                lemma_oset_contains(out@, x);
                if x == l@.union(rs@[j as int]@) {
                    if lien_set_is_copy_spec(env@, rs@[j as int]@) {
                        assert(out@[1]@ == x);
                    } else {
                        assert(out@[0]@ == x);
                    }
                }
                if lien_set_is_copy_spec(env@, rs@[j as int]@) && x == rs@[j as int]@ {
                    assert(out@[0]@ == x);
                }
            }
        }
        r = append_outcomes(r, out);
        proof {
            assert forall|x: Set<SLien>| oset(r@).contains(x) <==> exists|k: int| 0 <= k < j + 1
                && applied(env@, l@, #[trigger] rs@[k]@, x) by {
                if oset(old_r).contains(x) {
                    let k = choose|k: int| 0 <= k < j && applied(env@, l@, #[trigger] rs@[k]@, x);
                }
                if exists|k: int| 0 <= k < j + 1 && applied(env@, l@, #[trigger] rs@[k]@, x) {
                    let k = choose|k: int| 0 <= k < j + 1 && applied(env@, l@, #[trigger] rs@[k]@, x);
                    if k < j {
                        assert(oset(old_r).contains(x));
                    }
                }
            }
        }
        j = j + 1;
    }
    r
}

/// Every result of applying a set of `ls` to a set of `rs` (see
/// [`apply_outcomes`]).
fn apply_exec(env: &Env, ls: &Vec<LienSet>, rs: &Vec<LienSet>) -> (r: Vec<LienSet>)
    ensures
        oset(r@) == apply_outcomes(env@, oset(ls@), oset(rs@)),
{
    let ghost sl = oset(ls@);
    let ghost sr = oset(rs@);
    let mut r: Vec<LienSet> = Vec::new();
    let mut i: usize = 0;
    while i < ls.len()
        invariant
            sl == oset(ls@),
            sr == oset(rs@),
            i <= ls@.len(),
            forall|x: Set<SLien>| oset(r@).contains(x) <==> exists|k: int, j: int| 0 <= k < i && 0 <= j < rs@.len()
                && applied(env@, #[trigger] ls@[k]@, #[trigger] rs@[j]@, x),
        decreases ls.len() - i,
    {
        let one = apply_one(env, &ls[i], rs);
        let ghost old_r = r@;
        r = append_outcomes(r, one);
        proof {
            assert forall|x: Set<SLien>| oset(r@).contains(x) <==> exists|k: int, j: int| 0 <= k < i + 1 && 0 <= j < rs@.len()
                && applied(env@, #[trigger] ls@[k]@, #[trigger] rs@[j]@, x) by {
                if oset(old_r).contains(x) {
                    let (k, j) = choose|k: int, j: int| 0 <= k < i && 0 <= j < rs@.len()
                        && applied(env@, #[trigger] ls@[k]@, #[trigger] rs@[j]@, x);
                }
                if exists|k: int, j: int| 0 <= k < i + 1 && 0 <= j < rs@.len()
                    && applied(env@, #[trigger] ls@[k]@, #[trigger] rs@[j]@, x) {
                    let (k, j) = choose|k: int, j: int| 0 <= k < i + 1 && 0 <= j < rs@.len()
                        && applied(env@, #[trigger] ls@[k]@, #[trigger] rs@[j]@, x);
                    if k < i {
                        assert(oset(old_r).contains(x));
                    } else {
                        assert(oset(one@).contains(x));
                    }
                }
            }
        }
        i = i + 1;
    }
    proof {
        assert forall|x: Set<SLien>| oset(r@).contains(x) <==> apply_outcomes(env@, sl, sr).contains(x) by {
            if oset(r@).contains(x) {
                let (k, j) = choose|k: int, j: int| 0 <= k < ls@.len() && 0 <= j < rs@.len()
                    && applied(env@, #[trigger] ls@[k]@, #[trigger] rs@[j]@, x);
                lemma_oset_contains(ls@, ls@[k]@);
                lemma_oset_contains(rs@, rs@[j]@);
                assert(sl.contains(ls@[k]@) && sr.contains(rs@[j]@));
            }
            if apply_outcomes(env@, sl, sr).contains(x) {
                let (l, m) = choose|l: Set<SLien>, m: Set<SLien>| #![trigger sl.contains(l), sr.contains(m)]
                    sl.contains(l) && sr.contains(m) && applied(env@, l, m, x);
                lemma_oset_contains(ls@, l);
                lemma_oset_contains(rs@, m);
                let k = choose|k: int| 0 <= k < ls@.len() && #[trigger] ls@[k]@ == l;
                let j = choose|j: int| 0 <= j < rs@.len() && #[trigger] rs@[j]@ == m;
                assert(applied(env@, ls@[k]@, rs@[j]@, x));
            }
        }
        assert(oset(r@) =~= apply_outcomes(env@, sl, sr));
    }
    r
}

/// The lien set holding `l` alone.
fn single_lien(l: Lien) -> (r: LienSet)
    ensures
        r@ == set![l@],
{
    let mut elements: Vec<Lien> = Vec::new();
    elements.push(l);
    let r = LienSet { elements };
    proof {
        let v = r.elements@.map_values(|x: Lien| x@);
        assert(v.len() == 1);
        assert(v[0] == r.elements@[0]@);
        assert forall|x: SLien| v.to_set().contains(x) <==> x == r.elements@[0]@ by {
            if x == r.elements@[0]@ {
                assert(v.contains(x));
            }
        }
        assert(v.to_set() =~= set![r.elements@[0]@]);
    }
    r
}

/// The possible lien sets of a universal variable (see [`var_outcomes`]).
fn var_outcomes_exec(env: &Env, v: UniversalVar) -> (r: Vec<LienSet>)
    ensures
        oset(r@) == var_outcomes(env@, v),
{
    let mut r = one_outcome(single_lien(Lien::Var(v)));
    if env.is(&v, ParameterPredicate::Owned) && env.is(&v, ParameterPredicate::Move) {
        r = append_outcomes(r, one_outcome(no_liens()));
        proof {
            assert(oset(r@) =~= var_outcomes(env@, v));
        }
    }
    r
}

/// The possible lien sets of `a` (see [`lien_outcomes`]), each as a list;
/// the list is empty when no lien set can be derived.
pub fn liens(env: &Env, a: &Parameter, fuel: usize) -> (r: Vec<LienSet>)
    ensures
        oset(r@) == lien_outcomes(env@, a@, fuel as nat),
    decreases fuel, 2 * param_size(a@),
{
    match a {
        Parameter::Perm(q) => match q {
            Perm::Given => one_outcome(no_liens()),
            Perm::Shared => one_outcome(single_lien(Lien::Copy)),
            Perm::Rf(s) => {
                assert(a@ == SParameter::Perm(SPerm::Rf(place_set(s@))));
                let base = borrow_liens(s, true);
                let ps = places_exec(env, s, fuel);
                apply_exec(env, &one_outcome(base), &ps)
            },
            Perm::Mt(s) => {
                assert(a@ == SParameter::Perm(SPerm::Mt(place_set(s@))));
                let base = borrow_liens(s, false);
                let ps = places_exec(env, s, fuel);
                apply_exec(env, &one_outcome(base), &ps)
            },
            Perm::Mv(s) => {
                assert(a@ == SParameter::Perm(SPerm::Mv(place_set(s@))));
                places_exec(env, s, fuel)
            },
            Perm::Var(v) => {
                assert(a@ == SParameter::Perm(SPerm::Var(*v)));
                match v {
                    Variable::UniversalVar(u) => var_outcomes_exec(env, *u),
                    _ => {
                        let r: Vec<LienSet> = Vec::new();
                        assert(oset(r@) =~= Set::<Set<SLien>>::empty());
                        r
                    },
                }
            },
            Perm::Apply(l, rr) => {
                let lp = Parameter::Perm((**l).copy());
                let rp = Parameter::Perm((**rr).copy());
                assert(a@ == SParameter::Perm(SPerm::Apply(Box::new(l@), Box::new(rr@))));
                assert(lp@ == SParameter::Perm(l@));
                assert(rp@ == SParameter::Perm(rr@));
                let ll = liens(env, &lp, fuel);
                let rl = liens(env, &rp, fuel);
                apply_exec(env, &ll, &rl)
            },
            Perm::Or(ps) => {
                assert(a@ == SParameter::Perm(SPerm::Or(perms_view(ps@))));
                proof {
                    lemma_perms_view(ps@);
                    let pv = perms_view(ps@);
                    assert(pv.subrange(0, pv.len() as int) =~= pv);
                }
                or_exec(env, ps, 0, fuel)
            },
        },
        Parameter::Ty(t) => match t {
            Ty::NamedTy(n) => {
                assert(a@ == SParameter::Ty(STy::NamedTy(n@)));
                one_outcome(no_liens())
            },
            Ty::ApplyPerm(l, rr) => {
                let lp = Parameter::Perm(l.copy());
                let rp = Parameter::Ty((**rr).copy());
                assert(a@ == SParameter::Ty(STy::ApplyPerm(l@, Box::new(rr@))));
                assert(lp@ == SParameter::Perm(l@));
                assert(rp@ == SParameter::Ty(rr@));
                let ll = liens(env, &lp, fuel);
                let rl = liens(env, &rp, fuel);
                apply_exec(env, &ll, &rl)
            },
            Ty::Var(v) => {
                assert(a@ == SParameter::Ty(STy::Var(*v)));
                match v {
                    Variable::UniversalVar(u) => var_outcomes_exec(env, *u),
                    _ => {
                        let r: Vec<LienSet> = Vec::new();
                        assert(oset(r@) =~= Set::<Set<SLien>>::empty());
                        r
                    },
                }
            },
        },
    }
}

/// The liens a share (`shared` true) or lease of `places` holds of its own:
/// copy, lent and a share of each place; or lent and a lease of each.
fn borrow_liens(places: &Vec<Place>, shared: bool) -> (r: LienSet)
    ensures
        shared ==> r@ == set![SLien::Copy, SLien::Lent] + shared_liens(place_set(places@)),
        !shared ==> r@ == set![SLien::Lent] + leased_liens(place_set(places@)),
{
    let mut ls: Vec<Lien> = Vec::new();
    if shared {
        ls.push(Lien::Copy);
    }
    ls.push(Lien::Lent);
    let start = ls.len();
    let mut i: usize = 0;
    while i < places.len()
        invariant
            start == (if shared { 2int } else { 1int }),
            ls@.len() == start + i,
            shared ==> ls@[0] == Lien::Copy && ls@[1] == Lien::Lent,
            !shared ==> ls@[0] == Lien::Lent,
            i <= places@.len(),
            forall|k: int| 0 <= k < i ==> #[trigger] ls@[start + k]@ == (if shared {
                SLien::Shared(places@[k]@)
            } else {
                SLien::Leased(places@[k]@)
            }),
        decreases places.len() - i,
    {
        let p = places[i].copy();
        if shared {
            ls.push(Lien::Shared(p));
        } else {
            ls.push(Lien::Leased(p));
        }
        i = i + 1;
    }
    let r = LienSet { elements: ls };
    proof {
        let es = r.elements@;
        assert(es.len() == start + places@.len());
        let v = es.map_values(|l: Lien| l@);
        let target = if shared {
            set![SLien::Copy, SLien::Lent] + shared_liens(place_set(places@))
        } else {
            set![SLien::Lent] + leased_liens(place_set(places@))
        };
        assert forall|x: SLien| v.to_set().contains(x) <==> target.contains(x) by {
            if v.contains(x) {
                let k = choose|k: int| 0 <= k < v.len() && v[k] == x;
                assert(v[k] == es[k]@);
                if k >= start {
                    assert(es[start + (k - start)]@ == x);
                    lemma_place_set_contains(places@, places@[k - start]@);
                } else if shared {
                    assert(k == 0 || k == 1);
                } else {
                    assert(k == 0);
                }
            }
            if target.contains(x) {
                match x {
                    SLien::Copy => {
                        assert(shared);
                        assert(v[0] == es[0]@);
                        assert(v[0] == x);
                    },
                    SLien::Lent => {
                        if shared {
                            assert(v[1] == es[1]@);
                            assert(v[1] == x);
                        } else {
                            assert(v[0] == es[0]@);
                            assert(v[0] == x);
                        }
                    },
                    SLien::Shared(q) => {
                        lemma_place_set_contains(places@, q);
                        let k = choose|k: int| 0 <= k < places@.len() && #[trigger] places@[k]@ == q;
                        assert(v[start + k] == es[start + k]@);
                        assert(v[start + k] == x);
                    },
                    SLien::Leased(q) => {
                        lemma_place_set_contains(places@, q);
                        let k = choose|k: int| 0 <= k < places@.len() && #[trigger] places@[k]@ == q;
                        assert(v[start + k] == es[start + k]@);
                        assert(v[start + k] == x);
                    },
                    SLien::Var(_) => {},
                }
                assert(v.contains(x));
            }
        }
        assert(v.to_set() =~= target);
    }
    r
}

/// The alternatives `ps[i..]` of an `Or`, joined.
fn or_exec(env: &Env, ps: &Vec<Perm>, i: usize, fuel: usize) -> (r: Vec<LienSet>)
    requires
        i <= ps@.len(),
    ensures
        oset(r@) == or_outcomes(env@, perms_view(ps@).subrange(i as int, ps@.len() as int), fuel as nat),
    decreases fuel, 2 * perms_size(perms_view(ps@).subrange(i as int, ps@.len() as int)) + 1,
{
    let ghost pv = perms_view(ps@);
    let ghost sv = pv.subrange(i as int, ps@.len() as int);
    proof {
        lemma_perms_view(ps@);
    }
    if i == ps.len() {
        return one_outcome(no_liens());
    }
    let qp = Parameter::Perm(ps[i].copy());
    proof {
        lemma_perms_size_front(sv);
        lemma_param_size_pos(SParameter::Perm(sv[0]));
        assert(sv[0] == ps@[i as int]@);
        assert(qp@ == SParameter::Perm(sv[0]));
        assert(sv.subrange(1, sv.len() as int) =~= pv.subrange(i + 1, ps@.len() as int));
    }
    let first = liens(env, &qp, fuel);
    let rest = or_exec(env, ps, i + 1, fuel);
    join_exec(&first, &rest)
}

/// The places of `places`, joined (see [`places_outcomes`]).
fn places_exec(env: &Env, places: &Vec<Place>, fuel: usize) -> (r: Vec<LienSet>)
    ensures
        oset(r@) == places_outcomes(env@, place_set(places@), fuel as nat),
    decreases fuel, 1nat,
{
    let ds = crate::grammar::distinct_places(places);
    let ghost e = env@;
    let ghost f = fuel as nat;
    let mut acc = one_outcome(no_liens());
    proof {
        assert(place_set(ds@.subrange(0, 0)) =~= Set::<SPlace>::empty()) by {
            crate::grammar::lemma_place_set_empty();
            assert(ds@.subrange(0, 0) =~= Seq::<Place>::empty());
        }
        vstd::seq_lib::seq_to_set_is_finite(ds@.subrange(0, 0).map_values(|p: Place| p@));
    }
    let mut i: usize = 0;
    while i < ds.len()
        invariant
            e == env@,
            f == fuel as nat,
            i <= ds@.len(),
            forall|a: int, b: int| 0 <= a < b < ds@.len() ==> ds@[a]@ != ds@[b]@,
            place_set(ds@) == place_set(places@),
            oset(acc@) == places_outcomes(e, place_set(ds@.subrange(0, i as int)), f),
        decreases ds.len() - i,
    {
        let one = place_exec(env, &ds[i], fuel);
        let ghost q = ds@[i as int]@;
        let ghost before = place_set(ds@.subrange(0, i as int));
        let ghost after = place_set(ds@.subrange(0, i + 1));
        proof {
            assert(ds@.subrange(0, i + 1) =~= ds@.subrange(0, i as int).push(ds@[i as int]));
            crate::grammar::lemma_place_set_push(ds@.subrange(0, i as int), ds@[i as int]);
            assert(after == before.insert(q));
            assert(!before.contains(q)) by {
                lemma_place_set_contains(ds@.subrange(0, i as int), q);
                if before.contains(q) {
                    let k = choose|k: int| 0 <= k < i && #[trigger] ds@.subrange(0, i as int)[k]@ == q;
                    assert(ds@[k]@ == ds@[i as int]@);
                }
            }
            vstd::seq_lib::seq_to_set_is_finite(ds@.subrange(0, i + 1).map_values(|p: Place| p@));
            lemma_places_outcomes_pick(e, after, q, f);
            assert(after.remove(q) =~= before);
            lemma_join_commutative(place_outcomes(e, q, f), places_outcomes(e, before, f));
        }
        acc = join_exec(&acc, &one);
        i = i + 1;
    }
    proof {
        assert(ds@.subrange(0, ds@.len() as int) =~= ds@);
    }
    acc
}

/// The lien sets of the type of `place` (see [`place_outcomes`]).
fn place_exec(env: &Env, place: &Place, fuel: usize) -> (r: Vec<LienSet>)
    ensures
        oset(r@) == place_outcomes(env@, place@, fuel as nat),
    decreases fuel, 0nat,
{
    if fuel == 0 {
        let r: Vec<LienSet> = Vec::new();
        assert(oset(r@) =~= Set::<Set<SLien>>::empty());
        return r;
    }
    match env.place_ty(place) {
        Err(_) => {
            let r: Vec<LienSet> = Vec::new();
            assert(oset(r@) =~= Set::<Set<SLien>>::empty());
            r
        },
        Ok(t) => {
            let tp = Parameter::Ty(t);
            assert(tp@ == ty_param(t@));
            liens(env, &tp, fuel - 1)
        },
    }
}

/// The lien data of `a` in the context `cx`: a permission has no data and
/// each result of applying `cx` to one of its lien sets; an applied
/// permission continues into its type with each such result as context; a
/// universal type variable or a named type is the data itself, with `cx`.
pub open spec fn lien_datas_of(env: SEnv, cx: Set<SLien>, a: SParameter, fuel: nat) -> Set<(Set<SLien>, SData)>
    decreases param_size(a),
{
    match a {
        SParameter::Perm(q) => Set::new(|d: (Set<SLien>, SData)| exists|x: Set<SLien>|
            #[trigger] apply_outcomes(env, set![cx], lien_outcomes(env, SParameter::Perm(q), fuel)).contains(x) && d == (x, SData::NoData)),
        SParameter::Ty(t) => match t {
            STy::ApplyPerm(l, r) => Set::new(|d: (Set<SLien>, SData)| exists|x: Set<SLien>|
                #[trigger] apply_outcomes(env, set![cx], lien_outcomes(env, SParameter::Perm(l), fuel)).contains(x)
                && lien_datas_of(env, x, SParameter::Ty(*r), fuel).contains(d)),
            STy::Var(Variable::UniversalVar(v)) => set![(cx, SData::Var(v))],
            STy::Var(_) => Set::empty(),
            STy::NamedTy(n) => set![(cx, SData::NamedTy(n))],
        },
    }
}

pub open spec fn dset(v: Seq<LienData>) -> Set<(Set<SLien>, SData)> {
    v.map_values(|d: LienData| (d.liens@, d.data@)).to_set()
}

proof fn lemma_dset_contains(v: Seq<LienData>, x: (Set<SLien>, SData))
    ensures
        dset(v).contains(x) <==> exists|i: int| 0 <= i < v.len() && (#[trigger] v[i].liens@, v[i].data@) == x,
{
    let m = v.map_values(|d: LienData| (d.liens@, d.data@));
    if dset(v).contains(x) {
        let i = choose|i: int| 0 <= i < m.len() && m[i] == x;
        assert(m[i] == (v[i].liens@, v[i].data@));
    }
    if exists|i: int| 0 <= i < v.len() && (#[trigger] v[i].liens@, v[i].data@) == x {
        let i = choose|i: int| 0 <= i < v.len() && (#[trigger] v[i].liens@, v[i].data@) == x;
        assert(m[i] == x);
        assert(m.contains(x));
    }
}

fn append_datas(a: Vec<LienData>, b: Vec<LienData>) -> (r: Vec<LienData>)
    ensures
        dset(r@) == dset(a@) + dset(b@),
{
    let mut r = a;
    let mut b = b;
    let ghost ra = r@;
    let ghost rb = b@;
    r.append(&mut b);
    proof {
        assert forall|x: (Set<SLien>, SData)| dset(r@).contains(x) <==> (dset(ra) + dset(rb)).contains(x) by {
            lemma_dset_contains(r@, x);
            lemma_dset_contains(ra, x);
            lemma_dset_contains(rb, x);
            if exists|i: int| 0 <= i < r@.len() && (#[trigger] r@[i].liens@, r@[i].data@) == x {
                let i = choose|i: int| 0 <= i < r@.len() && (#[trigger] r@[i].liens@, r@[i].data@) == x;
                if i < ra.len() {
                    assert(ra[i] == r@[i]);
                } else {
                    assert(rb[i - ra.len()] == r@[i]);
                }
            }
            if exists|i: int| 0 <= i < ra.len() && (#[trigger] ra[i].liens@, ra[i].data@) == x {
                let i = choose|i: int| 0 <= i < ra.len() && (#[trigger] ra[i].liens@, ra[i].data@) == x;
                assert(r@[i] == ra[i]);
            }
            if exists|i: int| 0 <= i < rb.len() && (#[trigger] rb[i].liens@, rb[i].data@) == x {
                let i = choose|i: int| 0 <= i < rb.len() && (#[trigger] rb[i].liens@, rb[i].data@) == x;
                assert(r@[i + ra.len()] == rb[i]);
            }
        }
        assert(dset(r@) =~= dset(ra) + dset(rb));
    }
    r
}

fn single_data(d: LienData) -> (r: Vec<LienData>)
    ensures
        dset(r@) == set![(d.liens@, d.data@)],
{
    let mut r: Vec<LienData> = Vec::new();
    r.push(d);
    proof {
        assert forall|x: (Set<SLien>, SData)| dset(r@).contains(x) <==> x == (r@[0].liens@, r@[0].data@) by {
            lemma_dset_contains(r@, x);
        }
        assert(dset(r@) =~= set![(r@[0].liens@, r@[0].data@)]);
    }
    r
}

/// The lien data of `a` in the context `liens_cx` (see [`lien_datas_of`]),
/// each once per derivation.
pub fn lien_datas(env: &Env, liens_cx: &LienSet, a: &Parameter, fuel: usize) -> (r: Vec<LienData>)
    ensures
        dset(r@) == lien_datas_of(env@, liens_cx@, a@, fuel as nat),
    decreases param_size(a@),
{
    match a {
        Parameter::Perm(_) => {
            let lp = liens(env, a, fuel);
            let xs = apply_exec(env, &one_outcome(liens_cx.copy()), &lp);
            let ghost ax = apply_outcomes(env@, set![liens_cx@], lien_outcomes(env@, a@, fuel as nat));
            let mut r: Vec<LienData> = Vec::new();
            let mut i: usize = 0;
            while i < xs.len()
                invariant
                    oset(xs@) == ax,
                    i <= xs@.len(),
                    r@.len() == i,
                    forall|k: int| 0 <= k < i ==> (#[trigger] r@[k]).liens@ == xs@[k]@ && r@[k].data@ == SData::NoData,
                decreases xs.len() - i,
            {
                r.push(LienData { liens: xs[i].copy(), data: Data::NoData });
                i = i + 1;
            }
            proof {
                assert(a@ is Perm);
                let q = a@->Perm_0;
                assert(a@ == SParameter::Perm(q));
                assert forall|d: (Set<SLien>, SData)| dset(r@).contains(d) <==> lien_datas_of(env@, liens_cx@, a@, fuel as nat).contains(d) by {
                    lemma_dset_contains(r@, d);
                    if dset(r@).contains(d) {
                        let k = choose|k: int| 0 <= k < r@.len() && (#[trigger] r@[k].liens@, r@[k].data@) == d;
                        lemma_oset_contains(xs@, xs@[k]@);
                        assert(ax.contains(xs@[k]@));
                    }
                    if lien_datas_of(env@, liens_cx@, a@, fuel as nat).contains(d) {
                        let x = choose|x: Set<SLien>| #[trigger] ax.contains(x) && d == (x, SData::NoData);
                        lemma_oset_contains(xs@, x);
                        let k = choose|k: int| 0 <= k < xs@.len() && #[trigger] xs@[k]@ == x;
                        assert((r@[k].liens@, r@[k].data@) == d);
                    }
                }
                assert(dset(r@) =~= lien_datas_of(env@, liens_cx@, a@, fuel as nat));
            }
            r
        },
        Parameter::Ty(t) => match t {
            Ty::ApplyPerm(l, rr) => {
                let lp = Parameter::Perm(l.copy());
                let rp = Parameter::Ty((**rr).copy());
                assert(a@ == SParameter::Ty(STy::ApplyPerm(l@, Box::new(rr@))));
                assert(lp@ == SParameter::Perm(l@));
                assert(rp@ == SParameter::Ty(rr@));
                let ll = liens(env, &lp, fuel);
                let xs = apply_exec(env, &one_outcome(liens_cx.copy()), &ll);
                let ghost ax = apply_outcomes(env@, set![liens_cx@], lien_outcomes(env@, lp@, fuel as nat));
                let mut r: Vec<LienData> = Vec::new();
                let mut i: usize = 0;
                while i < xs.len()
                    invariant
                        oset(xs@) == ax,
                        param_size(rp@) < param_size(a@),
                        i <= xs@.len(),
                        forall|d: (Set<SLien>, SData)| dset(r@).contains(d) <==> exists|k: int| 0 <= k < i
                            && lien_datas_of(env@, #[trigger] xs@[k]@, rp@, fuel as nat).contains(d),
                    decreases xs.len() - i,
                {
                    let sub = lien_datas(env, &xs[i], &rp, fuel);
                    let ghost old_r = r@;
                    r = append_datas(r, sub);
                    proof {
                        assert forall|d: (Set<SLien>, SData)| dset(r@).contains(d) <==> exists|k: int| 0 <= k < i + 1
                            && lien_datas_of(env@, #[trigger] xs@[k]@, rp@, fuel as nat).contains(d) by {
                            if dset(old_r).contains(d) {
                                let k = choose|k: int| 0 <= k < i && lien_datas_of(env@, #[trigger] xs@[k]@, rp@, fuel as nat).contains(d);
                            }
                            if exists|k: int| 0 <= k < i + 1 && lien_datas_of(env@, #[trigger] xs@[k]@, rp@, fuel as nat).contains(d) {
                                let k = choose|k: int| 0 <= k < i + 1 && lien_datas_of(env@, #[trigger] xs@[k]@, rp@, fuel as nat).contains(d);
                                if k < i {
                                    assert(dset(old_r).contains(d));
                                }
                            }
                        }
                    }
                    i = i + 1;
                }
                proof {
                    let target = lien_datas_of(env@, liens_cx@, a@, fuel as nat);
                    assert forall|d: (Set<SLien>, SData)| dset(r@).contains(d) <==> target.contains(d) by {
                        if dset(r@).contains(d) {
                            let k = choose|k: int| 0 <= k < xs@.len() && lien_datas_of(env@, #[trigger] xs@[k]@, rp@, fuel as nat).contains(d);
                            lemma_oset_contains(xs@, xs@[k]@);
                            assert(ax.contains(xs@[k]@));
                        }
                        if target.contains(d) {
                            let x = choose|x: Set<SLien>| #[trigger] ax.contains(x) && lien_datas_of(env@, x, rp@, fuel as nat).contains(d);
                            lemma_oset_contains(xs@, x);
                            let k = choose|k: int| 0 <= k < xs@.len() && #[trigger] xs@[k]@ == x;
                            assert(lien_datas_of(env@, xs@[k]@, rp@, fuel as nat).contains(d));
                        }
                    }
                    assert(dset(r@) =~= target);
                }
                r
            },
            Ty::Var(v) => {
                assert(a@ == SParameter::Ty(STy::Var(*v)));
                match v {
                    Variable::UniversalVar(u) => single_data(LienData { liens: liens_cx.copy(), data: Data::Var(*u) }),
                    _ => {
                        let r: Vec<LienData> = Vec::new();
                        assert(dset(r@) =~= Set::<(Set<SLien>, SData)>::empty());
                        r
                    },
                }
            },
            Ty::NamedTy(n) => {
                assert(a@ == SParameter::Ty(STy::NamedTy(n@)));
                single_data(LienData { liens: liens_cx.copy(), data: Data::NamedTy(n.copy()) })
            },
        },
    }
}

/// The lien sets of a set of places do not depend on the order in which
/// the places are taken, and owned permission has no liens.
pub proof fn law_places_in_any_order(env: SEnv, s: Set<SPlace>, q: SPlace, fuel: nat)
    requires
        s.finite(),
        s.contains(q),
    ensures
        places_outcomes(env, s, fuel) == join(place_outcomes(env, q, fuel), places_outcomes(env, s.remove(q), fuel)),
        lien_outcomes(env, SParameter::Perm(SPerm::Given), fuel) == set![Set::<SLien>::empty()],
{
    lemma_places_outcomes_pick(env, s, q, fuel);
}

} // verus!
