//! Lien chains: the history of the liens on an object.
//!
//! A chain `shared{x} leased[y]` means that the object was leased from `y`
//! and the leased value was then shared from `x`. The empty chain is `my`:
//! unique ownership.
use vstd::prelude::*;

use crate::env::Env;
use crate::grammar::{
    is_prefix, NamedTy, ParameterPredicate, Place, SNamedTy, SPlace, UniversalVar,
};

verus! {

/// Pairs the type of a value with its lien chain.
pub enum TyChain {
    Var(LienChain, UniversalVar),
    ClassTy(LienChain, NamedTy),
    ValueTy(LienChain, NamedTy),
}

pub enum STyChain {
    Var(Seq<SLien>, UniversalVar),
    ClassTy(Seq<SLien>, SNamedTy),
    ValueTy(Seq<SLien>, SNamedTy),
}

impl View for TyChain {
    type V = STyChain;

    open spec fn view(&self) -> STyChain {
        match self {
            TyChain::Var(c, v) => STyChain::Var(c@, *v),
            TyChain::ClassTy(c, n) => STyChain::ClassTy(c@, n@),
            TyChain::ValueTy(c, n) => STyChain::ValueTy(c@, n@),
        }
    }
}

/// The liens on an object, oldest first.
pub struct LienChain {
    pub vec: Vec<Lien>,
}

/// One lien of a chain.
pub enum Lien {
    Our,
    Shared(Place),
    Leased(Place),
    Var(UniversalVar),
}

pub enum SLien {
    Our,
    Shared(SPlace),
    Leased(SPlace),
    Var(UniversalVar),
}

impl View for Lien {
    type V = SLien;

    open spec fn view(&self) -> SLien {
        match self {
            Lien::Our => SLien::Our,
            Lien::Shared(p) => SLien::Shared(p@),
            Lien::Leased(p) => SLien::Leased(p@),
            Lien::Var(v) => SLien::Var(*v),
        }
    }
}

impl View for LienChain {
    type V = Seq<SLien>;

    open spec fn view(&self) -> Seq<SLien> {
        self.vec@.map_values(|l: Lien| l@)
    }
}

/// Unique ownership: the empty chain.
#[derive(Clone, Copy)]
pub struct My();

/// Shared ownership: the chain made of `our` alone.
#[derive(Clone, Copy)]
pub struct Our();

/// `a` covers `b` when both are shared (or both leased) and `a`'s place is
/// a prefix of `b`'s, when both are the same variable, or when both are `our`.
pub open spec fn lien_covers(a: SLien, b: SLien) -> bool {
    match (a, b) {
        (SLien::Shared(p), SLien::Shared(q)) => is_prefix(p, q),
        (SLien::Leased(p), SLien::Leased(q)) => is_prefix(p, q),
        (SLien::Var(v), SLien::Var(w)) => v == w,
        (SLien::Our, SLien::Our) => true,
        _ => false,
    }
}

/// A lien that makes the value copyable, so that it forgets the chain
/// it is applied to: `our`, a share, or a variable assumed to be copy.
pub open spec fn lien_is_shared(env: crate::env::SEnv, l: SLien) -> bool {
    match l {
        SLien::Our => true,
        SLien::Shared(_) => true,
        SLien::Var(v) => env.assumptions.contains(crate::env::var_predicate(v, ParameterPredicate::Copy)),
        SLien::Leased(_) => false,
    }
}

/// The chain `c` with `l` applied.
pub open spec fn apply_lien_spec(env: crate::env::SEnv, c: Seq<SLien>, l: SLien) -> Seq<SLien> {
    if lien_is_shared(env, l) {
        seq![l]
    } else {
        c.push(l)
    }
}

/// The chain `c` with each lien of `ls` applied in order.
pub open spec fn apply_all_spec(env: crate::env::SEnv, c: Seq<SLien>, ls: Seq<SLien>) -> Seq<SLien>
    decreases ls.len(),
{
    if ls.len() == 0 {
        c
    } else {
        apply_lien_spec(env, apply_all_spec(env, c, ls.drop_last()), ls.last())
    }
}

/// The index of the first lien of `s` covered by `l`, or `s.len()`.
pub open spec fn first_covered(l: SLien, s: Seq<SLien>) -> int
    decreases s.len(),
{
    if s.len() == 0 {
        0
    } else if lien_covers(l, s[0]) {
        0
    } else {
        1 + first_covered(l, s.subrange(1, s.len() as int))
    }
}

proof fn lemma_first_covered(l: SLien, s: Seq<SLien>)
    ensures
        0 <= first_covered(l, s) <= s.len(),
        forall|j: int| 0 <= j < first_covered(l, s) ==> !lien_covers(l, #[trigger] s[j]),
        first_covered(l, s) < s.len() ==> lien_covers(l, s[first_covered(l, s)]),
    decreases s.len(),
{
    if s.len() > 0 && !lien_covers(l, s[0]) {
        let t = s.subrange(1, s.len() as int);
        lemma_first_covered(l, t);
        assert forall|j: int| 0 <= j < first_covered(l, s) implies !lien_covers(l, #[trigger] s[j]) by {
            if j > 0 {
                assert(s[j] == t[j - 1]);
            }
        }
        if first_covered(l, s) < s.len() {
            assert(s[first_covered(l, s)] == t[first_covered(l, t)]);
        }
    }
}

/// The first index `k` with `lien_covers(l, s[k])` is the one the spec names.
proof fn lemma_first_covered_unique(l: SLien, s: Seq<SLien>, k: int)
    requires
        0 <= k <= s.len(),
        forall|j: int| 0 <= j < k ==> !lien_covers(l, #[trigger] s[j]),
        k < s.len() ==> lien_covers(l, s[k]),
    ensures
        first_covered(l, s) == k,
{
    lemma_first_covered(l, s);
    let f = first_covered(l, s);
    if f < k {
        assert(!lien_covers(l, s[f]));
    } else if k < f {
        assert(!lien_covers(l, s[k]));
    }
}

impl Lien {
    /// Copies the lien.
    pub fn copy(&self) -> (r: Lien)
        ensures
            r@ == self@,
    {
        match self {
            Lien::Our => Lien::Our,
            Lien::Shared(p) => Lien::Shared(p.copy()),
            Lien::Leased(p) => Lien::Leased(p.copy()),
            Lien::Var(v) => Lien::Var(*v),
        }
    }

    /// True if `self` covers `other` (see [`lien_covers`]).
    pub fn covers(&self, other: &Lien) -> (r: bool)
        ensures
            r == lien_covers(self@, other@),
    {
        match (self, other) {
            (Lien::Shared(p), Lien::Shared(q)) => p.is_prefix_of(q),
            (Lien::Leased(p), Lien::Leased(q)) => p.is_prefix_of(q),
            (Lien::Var(v), Lien::Var(w)) => *v == *w,
            (Lien::Our, Lien::Our) => true,
            _ => false,
        }
    }

    /// The lien of a value shared from `place`.
    pub fn shared(place: &Place) -> (r: Lien)
        ensures
            r@ == SLien::Shared(place@),
    {
        Lien::Shared(place.copy())
    }

    /// The lien of a value leased from `place`.
    pub fn leased(place: &Place) -> (r: Lien)
        ensures
            r@ == SLien::Leased(place@),
    {
        Lien::Leased(place.copy())
    }
}

/// Every lien covers itself.
pub proof fn law_covers_reflexive(l: SLien)
    ensures
        lien_covers(l, l),
{
    match l {
        SLien::Shared(p) => {
            assert(p.projections.is_prefix_of(p.projections));
        },
        SLien::Leased(p) => {
            assert(p.projections.is_prefix_of(p.projections));
        },
        _ => {},
    }
}

impl LienChain {
    /// Copies the chain.
    pub fn copy(&self) -> (r: LienChain)
        ensures
            r@ == self@,
    {
        let mut vec: Vec<Lien> = Vec::new();
        let mut i: usize = 0;
        while i < self.vec.len()
            invariant
                i <= self.vec@.len(),
                vec@.len() == i,
                forall|j: int| 0 <= j < i ==> #[trigger] vec@[j]@ == self.vec@[j]@,
            decreases self.vec.len() - i,
        {
            vec.push(self.vec[i].copy());
            i = i + 1;
        }
        let r = LienChain { vec };
        assert(r@ =~= self@);
        r
    }

    /// The chain of unique ownership.
    pub fn my() -> (r: LienChain)
        ensures
            r@ == Seq::<SLien>::empty(),
    {
        let r = LienChain { vec: Vec::new() };
        assert(r@ =~= Seq::<SLien>::empty());
        r
    }

    /// The chain of shared ownership.
    pub fn our() -> (r: LienChain)
        ensures
            r@ == seq![SLien::Our],
    {
        let r = LienChain { vec: vec![Lien::Our] };
        assert(r@ =~= seq![SLien::Our]);
        r
    }

    /// The chain made of `lien` alone.
    pub fn from_lien(lien: Lien) -> (r: LienChain)
        ensures
            r@ == seq![lien@],
    {
        let r = LienChain { vec: vec![lien] };
        assert(r@ =~= seq![r.vec@[0]@]);
        r
    }

    /// `Some(My())` exactly when the chain is empty.
    pub fn as_my(&self) -> (r: Option<My>)
        ensures
            r is Some <==> self@.len() == 0,
    {
        if self.vec.len() == 0 {
            Some(My())
        } else {
            None
        }
    }

    /// `Some(Our())` exactly when the chain is `our` alone.
    pub fn as_our(&self) -> (r: Option<Our>)
        ensures
            r is Some <==> self@ == seq![SLien::Our],
    {
        if self.vec.len() == 1 {
            let is_our = match &self.vec[0] {
                Lien::Our => true,
                _ => false,
            };
            if is_our {
                assert(self@ =~= seq![SLien::Our]);
                return Some(Our());
            }
            assert(self@[0] != SLien::Our);
        }
        assert(self@.len() == self.vec@.len());
        None
    }

    /// Splits the chain into its first lien and the rest; `None` when empty.
    pub fn split_first(&self) -> (r: Option<(Lien, LienChain)>)
        ensures
            self@.len() == 0 ==> r is None,
            self@.len() > 0 ==> (r matches Some((l, rest)) && l@ == self@[0]
                && rest@ == self@.subrange(1, self@.len() as int)),
    {
        if self.vec.len() == 0 {
            return None;
        }
        let mut rest: Vec<Lien> = Vec::new();
        let mut i: usize = 1;
        while i < self.vec.len()
            invariant
                1 <= i <= self.vec@.len(),
                rest@.len() == i - 1,
                forall|j: int| 0 <= j < i - 1 ==> #[trigger] rest@[j]@ == self.vec@[j + 1]@,
            decreases self.vec.len() - i,
        {
            rest.push(self.vec[i].copy());
            i = i + 1;
        }
        let rest = LienChain { vec: rest };
        assert(rest@ =~= self@.subrange(1, self@.len() as int));
        Some((self.vec[0].copy(), rest))
    }

    /// The chain `lien` followed by `chain`.
    pub fn cons(lien: Lien, chain: LienChain) -> (r: LienChain)
        ensures
            r@ == seq![lien@] + chain@,
    {
        let mut chain = chain;
        let ghost before = chain@;
        chain.vec.insert(0, lien);
        assert(chain@ =~= seq![lien@] + before);
        chain
    }

    /// Returns the chain with `lien` appended; a lien that makes the value
    /// copyable (`our`, a share, or a variable assumed to be copy) replaces
    /// the whole chain instead.
    pub fn apply(&self, env: &Env, lien: Lien) -> (r: LienChain)
        ensures
            r@ == apply_lien_spec(env@, self@, lien@),
    {
        let lien_is_shared = match &lien {
            Lien::Our => true,
            Lien::Shared(_) => true,
            Lien::Var(v) => env.is(v, ParameterPredicate::Copy),
            Lien::Leased(_) => false,
        };
        if lien_is_shared {
            LienChain::from_lien(lien)
        } else {
            let mut r = self.copy();
            let ghost before = r@;
            r.vec.push(lien);
            assert(r@ =~= before.push(lien@));
            r
        }
    }

    /// Returns the chain with each lien of `liens` applied in order.
    pub fn apply_all(&self, env: &Env, liens: &LienChain) -> (r: LienChain)
        ensures
            r@ == apply_all_spec(env@, self@, liens@),
    {
        let mut this = self.copy();
        let mut i: usize = 0;
        proof {
            assert(liens@.subrange(0, 0) =~= Seq::<SLien>::empty());
        }
        while i < liens.vec.len()
            invariant
                i <= liens@.len(),
                liens@.len() == liens.vec@.len(),
                this@ == apply_all_spec(env@, self@, liens@.subrange(0, i as int)),
            decreases liens.vec.len() - i,
        {
            let ghost sub = liens@.subrange(0, i + 1);
            assert(sub.drop_last() =~= liens@.subrange(0, i as int));
            assert(sub.last() == liens.vec@[i as int]@);
            this = this.apply(env, liens.vec[i].copy());
            i = i + 1;
        }
        assert(liens@.subrange(0, liens@.len() as int) =~= liens@);
        this
    }

    /// Applies the liens of `pending` up to the first one that `lien`
    /// covers, then `lien` itself; returns the new chain and the pending
    /// liens after the covered one (none if no lien was covered).
    pub fn apply_lien(&self, env: &Env, lien: Lien, pending: &LienChain) -> (r: (LienChain, LienChain))
        ensures
            ({
                let k = first_covered(lien@, pending@);
                &&& r.0@ == apply_lien_spec(env@, apply_all_spec(env@, self@, pending@.subrange(0, k)), lien@)
                &&& r.1@ == (if k < pending@.len() {
                    pending@.subrange(k + 1, pending@.len() as int)
                } else {
                    Seq::<SLien>::empty()
                })
            }),
    {
        let mut this = self.copy();
        let mut i: usize = 0;
        let ghost ps = pending@;
        proof {
            assert(ps.subrange(0, 0) =~= Seq::<SLien>::empty());
        }
        let mut found = false;
        while i < pending.vec.len()
            invariant_except_break
                ps == pending@,
                ps.len() == pending.vec@.len(),
                i <= ps.len(),
                !found,
                this@ == apply_all_spec(env@, self@, ps.subrange(0, i as int)),
                forall|j: int| 0 <= j < i ==> !lien_covers(lien@, #[trigger] ps[j]),
            ensures
                ps == pending@,
                i <= ps.len(),
                this@ == apply_all_spec(env@, self@, ps.subrange(0, i as int)),
                forall|j: int| 0 <= j < i ==> !lien_covers(lien@, #[trigger] ps[j]),
                found ==> i < ps.len() && lien_covers(lien@, ps[i as int]),
                !found ==> i == ps.len(),
            decreases pending.vec.len() - i,
        {
            assert(ps[i as int] == pending.vec@[i as int]@);
            if lien.covers(&pending.vec[i]) {
                found = true;
                break;
            }
            let ghost sub = ps.subrange(0, i + 1);
            assert(sub.drop_last() =~= ps.subrange(0, i as int));
            assert(sub.last() == ps[i as int]);
            this = this.apply(env, pending.vec[i].copy());
            i = i + 1;
        }
        proof {
            lemma_first_covered_unique(lien@, ps, i as int);
        }
        let mut rest: Vec<Lien> = Vec::new();
        assert(ps.len() == pending.vec@.len());
        if found {
            assert(i < ps.len());
            assert(i < pending.vec.len());
            let mut j: usize = i + 1;
            while j < pending.vec.len()
                invariant
                    ps == pending@,
                    ps.len() == pending.vec@.len(),
                    i < j <= ps.len(),
                    rest@.len() == j - i - 1,
                    forall|m: int| 0 <= m < j - i - 1 ==> #[trigger] rest@[m]@ == ps[m + i + 1],
                decreases pending.vec.len() - j,
            {
                assert(ps[j as int] == pending.vec@[j as int]@);
                rest.push(pending.vec[j].copy());
                j = j + 1;
            }
        }
        let rest = LienChain { vec: rest };
        proof {
            if found {
                assert(rest@ =~= ps.subrange(i + 1, ps.len() as int));
            } else {
                assert(rest@ =~= Seq::<SLien>::empty());
            }
        }
        (this.apply(env, lien), rest)
    }

    /// [`LienChain::apply_lien`] with the lien of the variable `var`.
    pub fn apply_var(&self, env: &Env, var: UniversalVar, pending: &LienChain) -> (r: (LienChain, LienChain))
        ensures
            ({
                let l = SLien::Var(var);
                let k = first_covered(l, pending@);
                &&& r.0@ == apply_lien_spec(env@, apply_all_spec(env@, self@, pending@.subrange(0, k)), l)
                &&& r.1@ == (if k < pending@.len() {
                    pending@.subrange(k + 1, pending@.len() as int)
                } else {
                    Seq::<SLien>::empty()
                })
            }),
    {
        self.apply_lien(env, Lien::Var(var), pending)
    }

    /// [`LienChain::apply_lien`] with the lien of a lease of `place`.
    pub fn apply_leased(&self, env: &Env, place: &Place, pending: &LienChain) -> (r: (LienChain, LienChain))
        ensures
            ({
                let l = SLien::Leased(place@);
                let k = first_covered(l, pending@);
                &&& r.0@ == apply_lien_spec(env@, apply_all_spec(env@, self@, pending@.subrange(0, k)), l)
                &&& r.1@ == (if k < pending@.len() {
                    pending@.subrange(k + 1, pending@.len() as int)
                } else {
                    Seq::<SLien>::empty()
                })
            }),
    {
        self.apply_lien(env, Lien::leased(place), pending)
    }

    /// True if the chain is not empty, so that it does not necessarily
    /// stand for unique ownership.
    pub fn is_not_my(&self) -> (r: bool)
        ensures
            r == (self@.len() > 0),
    {
        self.vec.len() > 0
    }
}

/// Applying every lien of `a` and then every lien of `b` is applying every
/// lien of `a + b`.
pub proof fn law_apply_all_concat(env: crate::env::SEnv, c: Seq<SLien>, a: Seq<SLien>, b: Seq<SLien>)
    ensures
        apply_all_spec(env, apply_all_spec(env, c, a), b) == apply_all_spec(env, c, a + b),
    decreases b.len(),
{
    if b.len() == 0 {
        assert(a + b =~= a);
    } else {
        law_apply_all_concat(env, c, a, b.drop_last());
        assert((a + b).drop_last() =~= a + b.drop_last());
        assert((a + b).last() == b.last());
    }
}

/// A lien that makes the value copyable leaves a chain made of itself
/// alone, whatever the chain it was applied to.
pub proof fn law_shared_lien_forgets_history(env: crate::env::SEnv, c: Seq<SLien>, l: SLien)
    requires
        lien_is_shared(env, l),
    ensures
        apply_lien_spec(env, c, l) == seq![l],
{
}

/// Each pair `(a, b)` collapsed into `a` with all of `b` applied.
pub open spec fn collapse_spec(env: crate::env::SEnv, pairs: Seq<(Seq<SLien>, Seq<SLien>)>) -> Set<Seq<SLien>> {
    Set::new(|c: Seq<SLien>| exists|i: int| 0 <= i < pairs.len() && c == apply_all_spec(env, #[trigger] pairs[i].0, pairs[i].1))
}

pub open spec fn pairs_view(pairs: Seq<(LienChain, LienChain)>) -> Seq<(Seq<SLien>, Seq<SLien>)> {
    pairs.map_values(|p: (LienChain, LienChain)| (p.0@, p.1@))
}

/// Collapses each pair `(a, b)` into `a` with all of `b` applied.
pub fn collapse(env: &Env, pairs: &Vec<(LienChain, LienChain)>) -> (r: Vec<LienChain>)
    ensures
        r@.len() == pairs@.len(),
        forall|i: int| 0 <= i < pairs@.len() ==> #[trigger] r@[i]@ == apply_all_spec(env@, pairs@[i].0@, pairs@[i].1@),
        r@.map_values(|c: LienChain| c@).to_set() == collapse_spec(env@, pairs_view(pairs@)),
{
    let mut r: Vec<LienChain> = Vec::new();
    let mut i: usize = 0;
    while i < pairs.len()
        invariant
            i <= pairs@.len(),
            r@.len() == i,
            forall|j: int| 0 <= j < i ==> #[trigger] r@[j]@ == apply_all_spec(env@, pairs@[j].0@, pairs@[j].1@),
        decreases pairs.len() - i,
    {
        r.push(pairs[i].0.apply_all(env, &pairs[i].1));
        i = i + 1;
    }
    proof {
        let rv = r@.map_values(|c: LienChain| c@);
        let pv = pairs_view(pairs@);
        assert forall|c: Seq<SLien>| rv.to_set().contains(c) implies collapse_spec(env@, pv).contains(c) by {
            assert(rv.contains(c));
            let i = choose|i: int| 0 <= i < rv.len() && rv[i] == c;
            assert(pv[i] == (pairs@[i].0@, pairs@[i].1@));
            assert(rv[i] == r@[i]@);
            assert(c == apply_all_spec(env@, pv[i].0, pv[i].1));
        }
        assert forall|c: Seq<SLien>| collapse_spec(env@, pv).contains(c) implies rv.to_set().contains(c) by {
            let i = choose|i: int| 0 <= i < pv.len() && c == apply_all_spec(env@, #[trigger] pv[i].0, pv[i].1);
            assert(pv[i] == (pairs@[i].0@, pairs@[i].1@));
            assert(rv[i] == r@[i]@);
            assert(rv.contains(c));
        }
        assert(rv.to_set() =~= collapse_spec(env@, pv));
    }
    r
}

/// Pairs `chain` with each pair `(a, b)` of `pending` collapsed into `a`
/// with all of `b` applied.
pub fn collapse_to_pending(env: &Env, chain: &LienChain, pending: &Vec<(LienChain, LienChain)>) -> (r: Vec<(LienChain, LienChain)>)
    ensures
        r@.len() == pending@.len(),
        forall|i: int| 0 <= i < pending@.len() ==> (#[trigger] r@[i]).0@ == chain@
            && r@[i].1@ == apply_all_spec(env@, pending@[i].0@, pending@[i].1@),
{
    let mut r: Vec<(LienChain, LienChain)> = Vec::new();
    let mut i: usize = 0;
    while i < pending.len()
        invariant
            i <= pending@.len(),
            r@.len() == i,
            forall|j: int| 0 <= j < i ==> (#[trigger] r@[j]).0@ == chain@
                && r@[j].1@ == apply_all_spec(env@, pending@[j].0@, pending@[j].1@),
        decreases pending.len() - i,
    {
        r.push((chain.copy(), pending[i].0.apply_all(env, &pending[i].1)));
        i = i + 1;
    }
    r
}

} // verus!
