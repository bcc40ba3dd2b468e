//! A summary of a permission: whether it was copied, the places it is
//! shared or leased from, and the generic variables it depends on.
use vstd::prelude::*;

use crate::env::{var_predicate, Env, SEnv};
use crate::grammar::{
    copy_places, lemma_place_set_contains, place_set, NamedTy, ParameterPredicate, Place,
    SNamedTy, SPlace, UniversalVar,
};

verus! {

/// The kind of data a value holds.
pub enum TyData {
    /// A generic type variable.
    Var(UniversalVar),
    /// A named type.
    NamedTy(NamedTy),
    /// No data at all: the summary of a permission.
    NoData,
}

pub enum STyData {
    Var(UniversalVar),
    NamedTy(SNamedTy),
    NoData,
}

impl View for TyData {
    type V = STyData;

    open spec fn view(&self) -> STyData {
        match self {
            TyData::Var(v) => STyData::Var(*v),
            TyData::NamedTy(n) => STyData::NamedTy(n@),
            TyData::NoData => STyData::NoData,
        }
    }
}

/// The permissions on a value together with the kind of its data.
pub struct LienData {
    pub perms: Perms,
    pub data: TyData,
}

/// A permission summary.
pub struct Perms {
    pub copied: bool,
    pub shared_from: Vec<Place>,
    pub leased_from: Vec<Place>,
    pub variables: Vec<UniversalVar>,
}

pub struct SPerms {
    pub copied: bool,
    pub shared_from: Set<SPlace>,
    pub leased_from: Set<SPlace>,
    pub variables: Set<UniversalVar>,
}

impl View for Perms {
    type V = SPerms;

    open spec fn view(&self) -> SPerms {
        SPerms {
            copied: self.copied,
            shared_from: place_set(self.shared_from@),
            leased_from: place_set(self.leased_from@),
            variables: self.variables@.to_set(),
        }
    }
}

/// How a value is laid out in memory.
pub enum Layout {
    /// Known to be held by value.
    Value,
    /// Known to be leased.
    Leased,
    /// Unknown because of these variables.
    Unknown(Vec<UniversalVar>),
}

pub enum SLayout {
    Value,
    Leased,
    Unknown(Set<UniversalVar>),
}

impl View for Layout {
    type V = SLayout;

    open spec fn view(&self) -> SLayout {
        match self {
            Layout::Value => SLayout::Value,
            Layout::Leased => SLayout::Leased,
            Layout::Unknown(vs) => SLayout::Unknown(vs@.to_set()),
        }
    }
}

/// True if the environment assumes `p(v)`.
pub open spec fn var_is(env: SEnv, v: UniversalVar, p: ParameterPredicate) -> bool {
    env.assumptions.contains(var_predicate(v, p))
}

/// Known to be copyable: copied, or depending on a variable assumed to be
/// copy or shared.
pub open spec fn perms_is_copy(env: SEnv, p: SPerms) -> bool {
    p.copied || exists|v: UniversalVar| p.variables.contains(v)
        && (var_is(env, v, ParameterPredicate::Copy) || var_is(env, v, ParameterPredicate::Shared))
}

/// Known to be moved: not copied, and every variable assumed to be move or
/// mutable.
pub open spec fn perms_is_moved(env: SEnv, p: SPerms) -> bool {
    !p.copied && forall|v: UniversalVar| p.variables.contains(v)
        ==> (var_is(env, v, ParameterPredicate::Move) || var_is(env, v, ParameterPredicate::Mut))
}

/// Known to be lent: shared or leased from some place, or depending on a
/// variable assumed to be mutable or shared.
pub open spec fn perms_is_lent(env: SEnv, p: SPerms) -> bool {
    !p.shared_from.is_empty() || !p.leased_from.is_empty() || exists|v: UniversalVar|
        p.variables.contains(v) && (var_is(env, v, ParameterPredicate::Mut) || var_is(env, v, ParameterPredicate::Shared))
}

/// Known to be owned: neither shared nor leased from a place, and every
/// variable assumed to be owned.
pub open spec fn perms_is_owned(env: SEnv, p: SPerms) -> bool {
    p.shared_from.is_empty() && p.leased_from.is_empty() && forall|v: UniversalVar|
        p.variables.contains(v) ==> var_is(env, v, ParameterPredicate::Owned)
}

/// Known to be leased: neither copy nor owned, and leased from a place or
/// depending on a variable assumed to be mutable.
pub open spec fn perms_is_leased(env: SEnv, p: SPerms) -> bool {
    !perms_is_copy(env, p) && !perms_is_owned(env, p) && (!p.leased_from.is_empty() || exists|v: UniversalVar|
        p.variables.contains(v) && var_is(env, v, ParameterPredicate::Mut))
}

/// A variable whose contribution to the layout is known.
pub open spec fn layout_known(env: SEnv, v: UniversalVar) -> bool {
    var_is(env, v, ParameterPredicate::Owned) || var_is(env, v, ParameterPredicate::Copy)
        || var_is(env, v, ParameterPredicate::Shared) || var_is(env, v, ParameterPredicate::Mut)
}

/// The layout of a value with permissions `p`.
pub open spec fn perms_layout(env: SEnv, p: SPerms) -> SLayout {
    if perms_is_copy(env, p) || perms_is_owned(env, p) {
        SLayout::Value
    } else if perms_is_leased(env, p) {
        SLayout::Leased
    } else {
        SLayout::Unknown(p.variables.filter(|v: UniversalVar| !layout_known(env, v)))
    }
}

/// The union of two summaries.
pub open spec fn perms_union(a: SPerms, b: SPerms) -> SPerms {
    SPerms {
        copied: a.copied || b.copied,
        shared_from: a.shared_from.union(b.shared_from),
        leased_from: a.leased_from.union(b.leased_from),
        variables: a.variables.union(b.variables),
    }
}

/// `l` applied to `r`: `r` alone when it is copyable, else their union.
pub open spec fn apply_perms_spec(env: SEnv, l: SPerms, r: SPerms) -> SPerms {
    if perms_is_copy(env, r) {
        r
    } else {
        perms_union(l, r)
    }
}

fn concat_places(a: &Vec<Place>, b: &Vec<Place>) -> (r: Vec<Place>)
    ensures
        place_set(r@) == place_set(a@).union(place_set(b@)),
{
    let mut r = copy_places(a);
    let mut i: usize = 0;
    while i < b.len()
        invariant
            i <= b@.len(),
            r@.len() == a@.len() + i,
            forall|j: int| 0 <= j < a@.len() ==> #[trigger] r@[j]@ == a@[j]@,
            forall|j: int| 0 <= j < i ==> #[trigger] r@[a@.len() + j]@ == b@[j]@,
        decreases b.len() - i,
    {
        r.push(b[i].copy());
        i = i + 1;
    }
    proof {
        assert forall|x: SPlace| place_set(r@).contains(x) <==> place_set(a@).union(place_set(b@)).contains(x) by {
            lemma_place_set_contains(r@, x);
            lemma_place_set_contains(a@, x);
            lemma_place_set_contains(b@, x);
            if place_set(r@).contains(x) {
                let j = choose|j: int| 0 <= j < r@.len() && #[trigger] r@[j]@ == x;
                if j < a@.len() {
                    assert(a@[j]@ == x);
                } else {
                    let k = j - a@.len();
                    assert(r@[a@.len() + k]@ == b@[k]@);
                    assert(a@.len() + k == j);
                    assert(b@[k]@ == x);
                }
            }
            if place_set(a@).contains(x) {
                let j = choose|j: int| 0 <= j < a@.len() && #[trigger] a@[j]@ == x;
                assert(r@[j]@ == x);
            }
            if place_set(b@).contains(x) {
                let j = choose|j: int| 0 <= j < b@.len() && #[trigger] b@[j]@ == x;
                assert(r@[a@.len() + j]@ == x);
            }
        }
        assert(place_set(r@) =~= place_set(a@).union(place_set(b@)));
    }
    r
}

fn concat_vars(a: &Vec<UniversalVar>, b: &Vec<UniversalVar>) -> (r: Vec<UniversalVar>)
    ensures
        r@.to_set() == a@.to_set().union(b@.to_set()),
{
    let mut r = a.clone();
    let mut i: usize = 0;
    assert(r@ == a@);
    while i < b.len()
        invariant
            i <= b@.len(),
            r@ == a@ + b@.subrange(0, i as int),
        decreases b.len() - i,
    {
        r.push(b[i]);
        assert(b@.subrange(0, i + 1) =~= b@.subrange(0, i as int).push(b@[i as int]));
        i = i + 1;
    }
    proof {
        assert(b@.subrange(0, b@.len() as int) =~= b@);
        assert forall|x: UniversalVar| r@.to_set().contains(x) <==> a@.to_set().union(b@.to_set()).contains(x) by {
            if r@.contains(x) {
                let j = choose|j: int| 0 <= j < r@.len() && r@[j] == x;
                if j < a@.len() {
                    assert(a@[j] == x);
                } else {
                    assert(b@[j - a@.len()] == x);
                }
            }
            if a@.contains(x) {
                let j = choose|j: int| 0 <= j < a@.len() && a@[j] == x;
                assert(r@[j] == x);
            }
            if b@.contains(x) {
                let j = choose|j: int| 0 <= j < b@.len() && b@[j] == x;
                assert(r@[a@.len() + j] == x);
            }
        }
        assert(r@.to_set() =~= a@.to_set().union(b@.to_set()));
    }
    r
}

fn no_places() -> (r: Vec<Place>)
    ensures
        place_set(r@) == Set::<SPlace>::empty(),
{
    let r: Vec<Place> = Vec::new();
    assert(place_set(r@) =~= Set::<SPlace>::empty());
    r
}

fn no_vars() -> (r: Vec<UniversalVar>)
    ensures
        r@.to_set() == Set::<UniversalVar>::empty(),
{
    let r: Vec<UniversalVar> = Vec::new();
    assert(r@.to_set() =~= Set::<UniversalVar>::empty());
    r
}

/// True if some variable of `vs` is assumed to satisfy `p` or `q`.
fn any_var_is(env: &Env, vs: &Vec<UniversalVar>, p: ParameterPredicate, q: ParameterPredicate) -> (r: bool)
    ensures
        r == exists|v: UniversalVar| vs@.to_set().contains(v) && (var_is(env@, v, p) || var_is(env@, v, q)),
{
    let mut i: usize = 0;
    while i < vs.len()
        invariant
            i <= vs@.len(),
            forall|j: int| 0 <= j < i ==> !(var_is(env@, #[trigger] vs@[j], p) || var_is(env@, vs@[j], q)),
        decreases vs.len() - i,
    {
        if env.is(&vs[i], p) || env.is(&vs[i], q) {
            assert(vs@.to_set().contains(vs@[i as int]));
            return true;
        }
        i = i + 1;
    }
    assert forall|v: UniversalVar| !(vs@.to_set().contains(v) && (var_is(env@, v, p) || var_is(env@, v, q))) by {
        if vs@.contains(v) {
            let j = choose|j: int| 0 <= j < vs@.len() && vs@[j] == v;
            assert(!(var_is(env@, vs@[j], p) || var_is(env@, vs@[j], q)));
        }
    }
    false
}

/// True if every variable of `vs` is assumed to satisfy `p` or `q`.
fn all_vars_are(env: &Env, vs: &Vec<UniversalVar>, p: ParameterPredicate, q: ParameterPredicate) -> (r: bool)
    ensures
        r == forall|v: UniversalVar| vs@.to_set().contains(v) ==> (var_is(env@, v, p) || var_is(env@, v, q)),
{
    let mut i: usize = 0;
    while i < vs.len()
        invariant
            i <= vs@.len(),
            forall|j: int| 0 <= j < i ==> (var_is(env@, #[trigger] vs@[j], p) || var_is(env@, vs@[j], q)),
        decreases vs.len() - i,
    {
        if !(env.is(&vs[i], p) || env.is(&vs[i], q)) {
            assert(vs@.to_set().contains(vs@[i as int]));
            return false;
        }
        i = i + 1;
    }
    assert forall|v: UniversalVar| vs@.to_set().contains(v) implies (var_is(env@, v, p) || var_is(env@, v, q)) by {
        let j = choose|j: int| 0 <= j < vs@.len() && vs@[j] == v;
        assert(var_is(env@, vs@[j], p) || var_is(env@, vs@[j], q));
    }
    true
}

impl Perms {
    pub fn copy(&self) -> (r: Perms)
        ensures
            r@ == self@,
    {
        Perms {
            copied: self.copied,
            shared_from: copy_places(&self.shared_from),
            leased_from: copy_places(&self.leased_from),
            variables: self.variables.clone(),
        }
    }

    /// The union of `self` and `other`.
    pub fn union(&self, other: &Perms) -> (r: Perms)
        ensures
            r@ == perms_union(self@, other@),
    {
        Perms {
            copied: self.copied || other.copied,
            shared_from: concat_places(&self.shared_from, &other.shared_from),
            leased_from: concat_places(&self.leased_from, &other.leased_from),
            variables: concat_vars(&self.variables, &other.variables),
        }
    }

    /// The `my` permission: nothing copied, shared, leased or variable.
    pub fn my() -> (r: Perms)
        ensures
            r@ == (SPerms {
                copied: false,
                shared_from: Set::empty(),
                leased_from: Set::empty(),
                variables: Set::empty(),
            }),
    {
        Perms { copied: false, shared_from: no_places(), leased_from: no_places(), variables: no_vars() }
    }

    /// The `our` permission: copied, and nothing else.
    pub fn our() -> (r: Perms)
        ensures
            r@ == (SPerms {
                copied: true,
                shared_from: Set::empty(),
                leased_from: Set::empty(),
                variables: Set::empty(),
            }),
    {
        Perms { copied: true, shared_from: no_places(), leased_from: no_places(), variables: no_vars() }
    }

    /// A permission shared from `places`.
    pub fn shared(places: &Vec<Place>) -> (r: Perms)
        ensures
            r@ == (SPerms {
                copied: true,
                shared_from: place_set(places@),
                leased_from: Set::empty(),
                variables: Set::empty(),
            }),
    {
        Perms { copied: true, shared_from: copy_places(places), leased_from: no_places(), variables: no_vars() }
    }

    /// A permission leased from `places`.
    pub fn leased(places: &Vec<Place>) -> (r: Perms)
        ensures
            r@ == (SPerms {
                copied: false,
                shared_from: Set::empty(),
                leased_from: place_set(places@),
                variables: Set::empty(),
            }),
    {
        Perms { copied: false, shared_from: no_places(), leased_from: copy_places(places), variables: no_vars() }
    }

    /// The permission variable `v`.
    pub fn var(v: UniversalVar) -> (r: Perms)
        ensures
            r@ == (SPerms {
                copied: false,
                shared_from: Set::empty(),
                leased_from: Set::empty(),
                variables: set![v],
            }),
    {
        let vs = vec![v];
        assert(vs@.to_set() =~= set![v]) by {
            assert(vs@[0] == v);
            assert forall|x: UniversalVar| vs@.contains(x) <==> x == v by {
                if x == v {
                    assert(vs@[0] == x);
                }
            }
        }
        Perms { copied: false, shared_from: no_places(), leased_from: no_places(), variables: vs }
    }

    /// True if the value is known to be copyable; false means not known.
    pub fn is_copy(&self, env: &Env) -> (r: bool)
        ensures
            r == perms_is_copy(env@, self@),
    {
        self.copied || any_var_is(env, &self.variables, ParameterPredicate::Copy, ParameterPredicate::Shared)
    }

    /// True if the value is known to be moved (it must be given away, not
    /// copied): the summary is not copied and every variable it depends on
    /// is assumed move or mutable; false means not known. Owned permission
    /// is moved and not copy.
    pub fn is_moved(&self, env: &Env) -> (r: bool)
        ensures
            r == perms_is_moved(env@, self@),
    {
        !self.copied && all_vars_are(env, &self.variables, ParameterPredicate::Move, ParameterPredicate::Mut)
    }

    /// True if the value is known to be lent; false means not known.
    pub fn is_lent(&self, env: &Env) -> (r: bool)
        ensures
            r == perms_is_lent(env@, self@),
    {
        let r = !is_empty_places(&self.shared_from) || !is_empty_places(&self.leased_from)
            || any_var_is(env, &self.variables, ParameterPredicate::Mut, ParameterPredicate::Shared);
        r
    }

    /// True if the value is known to be owned; false means not known.
    pub fn is_owned(&self, env: &Env) -> (r: bool)
        ensures
            r == perms_is_owned(env@, self@),
    {
        is_empty_places(&self.shared_from) && is_empty_places(&self.leased_from)
            && all_vars_are(env, &self.variables, ParameterPredicate::Owned, ParameterPredicate::Owned)
    }

    /// True if the value is known to be leased; false means not known.
    pub fn is_leased(&self, env: &Env) -> (r: bool)
        ensures
            r == perms_is_leased(env@, self@),
    {
        !self.is_copy(env) && !self.is_owned(env) && (!is_empty_places(&self.leased_from)
            || any_var_is(env, &self.variables, ParameterPredicate::Mut, ParameterPredicate::Mut))
    }

    /// True if the value is known not to be leased; false means not known.
    pub fn is_not_leased(&self, env: &Env) -> (r: bool)
        ensures
            r == (perms_is_copy(env@, self@) || perms_is_owned(env@, self@)),
    {
        self.is_copy(env) || self.is_owned(env)
    }

    /// How a value with these permissions is laid out.
    pub fn layout(&self, env: &Env) -> (r: Layout)
        ensures
            r@ == perms_layout(env@, self@),
    {
        if self.is_copy(env) {
            return Layout::Value;
        }
        if self.is_owned(env) {
            return Layout::Value;
        }
        if self.is_leased(env) {
            return Layout::Leased;
        }
        let mut modulo: Vec<UniversalVar> = Vec::new();
        let mut i: usize = 0;
        let ghost vs = self.variables@;
        while i < self.variables.len()
            invariant
                vs == self.variables@,
                i <= vs.len(),
                forall|x: UniversalVar| modulo@.contains(x) <==> (exists|j: int| 0 <= j < i && vs[j] == x && !layout_known(env@, x)),
            decreases self.variables.len() - i,
        {
            let v = self.variables[i];
            let known = env.is(&v, ParameterPredicate::Owned) || env.is(&v, ParameterPredicate::Copy)
                || env.is(&v, ParameterPredicate::Shared) || env.is(&v, ParameterPredicate::Mut);
            let ghost before = modulo@;
            if !known {
                modulo.push(v);
            }
            assert forall|x: UniversalVar| modulo@.contains(x) <==> (exists|j: int| 0 <= j < i + 1 && vs[j] == x && !layout_known(env@, x)) by {
                if modulo@.contains(x) {
                    let k = choose|k: int| 0 <= k < modulo@.len() && modulo@[k] == x;
                    if k < before.len() {
                        assert(before[k] == x);
                        assert(before.contains(x));
                    }
                }
                if exists|j: int| 0 <= j < i + 1 && vs[j] == x && !layout_known(env@, x) {
                    let j = choose|j: int| 0 <= j < i + 1 && vs[j] == x && !layout_known(env@, x);
                    if j < i {
                        assert(before.contains(x));
                        let k = choose|k: int| 0 <= k < before.len() && before[k] == x;
                        assert(modulo@[k] == x);
                    } else {
                        assert(modulo@[modulo@.len() - 1] == x);
                    }
                }
            }
            i = i + 1;
        }
        proof {
            let target = self@.variables.filter(|v: UniversalVar| !layout_known(env@, v));
            assert forall|x: UniversalVar| modulo@.to_set().contains(x) <==> target.contains(x) by {
                if target.contains(x) {
                    let j = choose|j: int| 0 <= j < vs.len() && vs[j] == x;
                    assert(exists|j: int| 0 <= j < i && vs[j] == x && !layout_known(env@, x));
                }
            }
            assert(modulo@.to_set() =~= target);
        }
        Layout::Unknown(modulo)
    }
}

fn is_empty_places(ps: &Vec<Place>) -> (r: bool)
    ensures
        r == place_set(ps@).is_empty(),
{
    if ps.len() == 0 {
        assert(place_set(ps@) =~= Set::<SPlace>::empty());
        true
    } else {
        proof {
            lemma_place_set_contains(ps@, ps@[0]@);
        }
        false
    }
}

/// `l` applied to `r`: `r` alone when it is copyable, else their union.
pub fn apply_perms(env: &Env, l: &Perms, r: &Perms) -> (out: Perms)
    ensures
        out@ == apply_perms_spec(env@, l@, r@),
{
    if r.is_copy(env) {
        r.copy()
    } else {
        l.union(r)
    }
}

/// A value known to be leased is not known to be unleased: the two
/// answers never both hold.
pub proof fn law_leased_excludes_not_leased(env: SEnv, p: SPerms)
    ensures
        perms_is_leased(env, p) ==> !(perms_is_copy(env, p) || perms_is_owned(env, p)),
{
}

/// Moved and copy exclude each other unless the assumptions contradict
/// themselves: a summary known both to be moved and to be copyable depends
/// on a variable assumed move or mutable and also copy or shared.
pub proof fn law_moved_excludes_copy(env: SEnv, p: SPerms)
    requires
        perms_is_moved(env, p),
        perms_is_copy(env, p),
    ensures
        exists|v: UniversalVar| #[trigger] p.variables.contains(v)
            && (var_is(env, v, ParameterPredicate::Move) || var_is(env, v, ParameterPredicate::Mut))
            && (var_is(env, v, ParameterPredicate::Copy) || var_is(env, v, ParameterPredicate::Shared)),
{
}

/// `my` is neutral for the union.
pub proof fn law_union_my(p: SPerms)
    ensures
        perms_union(p, SPerms {
            copied: false,
            shared_from: Set::empty(),
            leased_from: Set::empty(),
            variables: Set::empty(),
        }) == p,
{
    assert(p.shared_from.union(Set::empty()) =~= p.shared_from);
    assert(p.leased_from.union(Set::empty()) =~= p.leased_from);
    assert(p.variables.union(Set::empty()) =~= p.variables);
}

/// The union is commutative.
pub proof fn law_union_commutative(a: SPerms, b: SPerms)
    ensures
        perms_union(a, b) == perms_union(b, a),
{
    assert(a.shared_from.union(b.shared_from) =~= b.shared_from.union(a.shared_from));
    assert(a.leased_from.union(b.leased_from) =~= b.leased_from.union(a.leased_from));
    assert(a.variables.union(b.variables) =~= b.variables.union(a.variables));
}

/// Whatever it is applied to, a copyable summary stays as it is.
pub proof fn law_apply_copy(env: SEnv, l: SPerms, r: SPerms)
    requires
        perms_is_copy(env, r),
    ensures
        apply_perms_spec(env, l, r) == r,
{
}


} // verus!
