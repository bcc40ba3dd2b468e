//! Restriction sets: the owners of a value and the restrictions it places
//! on other places.
use vstd::prelude::*;

use crate::grammar::{lemma_place_set_contains, place_set, Place, SPlace, UniversalVar};

verus! {

/// Whether a restriction comes from sharing or leasing its place.
#[derive(PartialEq, Eq, Structural, Clone, Copy)]
pub enum Relative {
    Shared,
    Leased,
}

/// A restriction relative to `place`.
pub struct Restriction {
    pub relative: Relative,
    pub place: Place,
}

pub struct SRestriction {
    pub relative: Relative,
    pub place: SPlace,
}

impl View for Restriction {
    type V = SRestriction;

    open spec fn view(&self) -> SRestriction {
        SRestriction { relative: self.relative, place: self.place@ }
    }
}

/// Who owns a value.
#[derive(PartialEq, Eq, Structural, Clone, Copy)]
pub enum Own {
    My,
    Our,
    Var(UniversalVar),
}

/// The owners of a value and its restrictions.
pub struct RestrictionSet {
    pub owns: Vec<Own>,
    pub restrictions: Vec<Restriction>,
}

pub struct SRestrictionSet {
    pub owns: Set<Own>,
    pub restrictions: Set<SRestriction>,
}

impl View for RestrictionSet {
    type V = SRestrictionSet;

    open spec fn view(&self) -> SRestrictionSet {
        SRestrictionSet { owns: self.owns@.to_set(), restrictions: self.restrictions@.map_values(|l: Restriction| l@).to_set() }
    }
}

pub open spec fn restrictions_set(s: Seq<Restriction>) -> Set<SRestriction> {
    s.map_values(|l: Restriction| l@).to_set()
}

impl Restriction {
    pub fn copy(&self) -> (r: Restriction)
        ensures
            r@ == self@,
    {
        Restriction { relative: self.relative, place: self.place.copy() }
    }
}

fn concat_owns(a: &Vec<Own>, b: &Vec<Own>) -> (r: Vec<Own>)
    ensures
        r@.to_set() == a@.to_set().union(b@.to_set()),
{
    let mut r = a.clone();
    let mut i: usize = 0;
    assert(r@ == a@);
    while i < b.len()
        invariant
            i <= b@.len(),
            r@ == a@ + b@.subrange(0, i as int),
        decreases b.len() - i,
    {
        r.push(b[i]);
        assert(b@.subrange(0, i + 1) =~= b@.subrange(0, i as int).push(b@[i as int]));
        i = i + 1;
    }
    proof {
        assert(b@.subrange(0, b@.len() as int) =~= b@);
        assert forall|x: Own| r@.to_set().contains(x) <==> a@.to_set().union(b@.to_set()).contains(x) by {
            if r@.contains(x) {
                let j = choose|j: int| 0 <= j < r@.len() && r@[j] == x;
                if j < a@.len() {
                    assert(a@[j] == x);
                } else {
                    assert(b@[j - a@.len()] == x);
                }
            }
            if a@.contains(x) {
                let j = choose|j: int| 0 <= j < a@.len() && a@[j] == x;
                assert(r@[j] == x);
            }
            if b@.contains(x) {
                let j = choose|j: int| 0 <= j < b@.len() && b@[j] == x;
                assert(r@[a@.len() + j] == x);
            }
        }
        assert(r@.to_set() =~= a@.to_set().union(b@.to_set()));
    }
    r
}

fn copy_restrictions(a: &Vec<Restriction>) -> (r: Vec<Restriction>)
    ensures
        r@.len() == a@.len(),
        forall|j: int| 0 <= j < a@.len() ==> #[trigger] r@[j]@ == a@[j]@,
        restrictions_set(r@) == restrictions_set(a@),
{
    let mut r: Vec<Restriction> = Vec::new();
    let mut i: usize = 0;
    while i < a.len()
        invariant
            i <= a@.len(),
            r@.len() == i,
            forall|j: int| 0 <= j < i ==> #[trigger] r@[j]@ == a@[j]@,
        decreases a.len() - i,
    {
        r.push(a[i].copy());
        i = i + 1;
    }
    assert(r@.map_values(|l: Restriction| l@) =~= a@.map_values(|l: Restriction| l@));
    r
}

fn concat_restrictions(a: &Vec<Restriction>, b: &Vec<Restriction>) -> (r: Vec<Restriction>)
    ensures
        restrictions_set(r@) == restrictions_set(a@).union(restrictions_set(b@)),
{
    let mut r = copy_restrictions(a);
    let mut i: usize = 0;
    let ghost av = a@.map_values(|l: Restriction| l@);
    let ghost bv = b@.map_values(|l: Restriction| l@);
    assert(r@.map_values(|l: Restriction| l@) =~= av);
    while i < b.len()
        invariant
            av == a@.map_values(|l: Restriction| l@),
            bv == b@.map_values(|l: Restriction| l@),
            i <= b@.len(),
            r@.map_values(|l: Restriction| l@) == av + bv.subrange(0, i as int),
        decreases b.len() - i,
    {
        let ghost before = r@.map_values(|l: Restriction| l@);
        r.push(b[i].copy());
        assert(r@.map_values(|l: Restriction| l@) =~= before.push(bv[i as int]));
        assert(bv.subrange(0, i + 1) =~= bv.subrange(0, i as int).push(bv[i as int]));
        i = i + 1;
    }
    proof {
        let rv = r@.map_values(|l: Restriction| l@);
        assert(bv.subrange(0, bv.len() as int) =~= bv);
        assert forall|x: SRestriction| rv.to_set().contains(x) <==> av.to_set().union(bv.to_set()).contains(x) by {
            if rv.contains(x) {
                let j = choose|j: int| 0 <= j < rv.len() && rv[j] == x;
                if j < av.len() {
                    assert(av[j] == x);
                } else {
                    assert(bv[j - av.len()] == x);
                }
            }
            if av.contains(x) {
                let j = choose|j: int| 0 <= j < av.len() && av[j] == x;
                assert(rv[j] == x);
            }
            if bv.contains(x) {
                let j = choose|j: int| 0 <= j < bv.len() && bv[j] == x;
                assert(rv[av.len() + j] == x);
            }
        }
        assert(rv.to_set() =~= av.to_set().union(bv.to_set()));
    }
    r
}

/// Every owner and restriction of `a` and `b`.
pub open spec fn rset_with(a: SRestrictionSet, b: SRestrictionSet) -> SRestrictionSet {
    SRestrictionSet { owns: b.owns.union(a.owns), restrictions: b.restrictions.union(a.restrictions) }
}

/// The owners of `a` with the restrictions of both.
pub open spec fn rset_with_restrictions_from(a: SRestrictionSet, b: SRestrictionSet) -> SRestrictionSet {
    SRestrictionSet { owns: a.owns, restrictions: b.restrictions.union(a.restrictions) }
}

impl RestrictionSet {
    /// No owner and no restriction.
    pub fn new() -> (r: RestrictionSet)
        ensures
            r@ == (SRestrictionSet { owns: Set::empty(), restrictions: Set::empty() }),
    {
        let r = RestrictionSet { owns: Vec::new(), restrictions: Vec::new() };
        assert(r@.owns =~= Set::<Own>::empty());
        assert(r@.restrictions =~= Set::<SRestriction>::empty());
        r
    }

    /// Owned by `our`, with no restriction.
    pub fn our() -> (r: RestrictionSet)
        ensures
            r@ == (SRestrictionSet { owns: set![Own::Our], restrictions: Set::empty() }),
    {
        let r = RestrictionSet { owns: vec![Own::Our], restrictions: Vec::new() };
        assert(r@.owns =~= set![Own::Our]) by {
            assert(r.owns@[0] == Own::Our);
        }
        assert(r@.restrictions =~= Set::<SRestriction>::empty());
        r
    }

    /// Owned by the variable `v`, with no restriction.
    pub fn var(v: UniversalVar) -> (r: RestrictionSet)
        ensures
            r@ == (SRestrictionSet { owns: set![Own::Var(v)], restrictions: Set::empty() }),
    {
        let r = RestrictionSet { owns: vec![Own::Var(v)], restrictions: Vec::new() };
        assert(r@.owns =~= set![Own::Var(v)]) by {
            assert(r.owns@[0] == Own::Var(v));
        }
        assert(r@.restrictions =~= Set::<SRestriction>::empty());
        r
    }

    /// The owners and restrictions of both `self` and `other`.
    pub fn with(&self, other: &RestrictionSet) -> (r: RestrictionSet)
        ensures
            r@ == rset_with(self@, other@),
    {
        RestrictionSet { owns: concat_owns(&other.owns, &self.owns), restrictions: concat_restrictions(&other.restrictions, &self.restrictions) }
    }

    /// The owners of `self` with the restrictions of both.
    pub fn with_restrictions_from(&self, other: &RestrictionSet) -> (r: RestrictionSet)
        ensures
            r@ == rset_with_restrictions_from(self@, other@),
    {
        RestrictionSet { owns: self.owns.clone(), restrictions: concat_restrictions(&other.restrictions, &self.restrictions) }
    }

    /// No owner, and a restriction relative to each of `places`.
    pub fn relative(relative: Relative, places: &Vec<Place>) -> (r: RestrictionSet)
        ensures
            r@.owns == Set::<Own>::empty(),
            r@.restrictions == place_set(places@).map(|p: SPlace| SRestriction { relative, place: p }),
    {
        let mut restrictions: Vec<Restriction> = Vec::new();
        let mut i: usize = 0;
        while i < places.len()
            invariant
                i <= places@.len(),
                restrictions@.len() == i,
                forall|j: int| 0 <= j < i ==> #[trigger] restrictions@[j]@ == (SRestriction { relative, place: places@[j]@ }),
            decreases places.len() - i,
        {
            restrictions.push(Restriction { relative, place: places[i].copy() });
            i = i + 1;
        }
        let r = RestrictionSet { owns: Vec::new(), restrictions };
        proof {
            let target = place_set(places@).map(|p: SPlace| SRestriction { relative, place: p });
            let lv = restrictions@.map_values(|l: Restriction| l@);
            assert forall|x: SRestriction| lv.to_set().contains(x) <==> target.contains(x) by {
                if lv.contains(x) {
                    let j = choose|j: int| 0 <= j < lv.len() && lv[j] == x;
                    lemma_place_set_contains(places@, places@[j]@);
                    assert(place_set(places@).contains(places@[j]@));
                }
                if target.contains(x) {
                    let p = choose|p: SPlace| place_set(places@).contains(p) && SRestriction { relative, place: p } == x;
                    lemma_place_set_contains(places@, p);
                    let j = choose|j: int| 0 <= j < places@.len() && #[trigger] places@[j]@ == p;
                    assert(lv[j] == x);
                }
            }
            assert(lv.to_set() =~= target);
            assert(r@.owns =~= Set::<Own>::empty());
        }
        r
    }
}

/// Combining restriction sets is commutative.
pub proof fn law_with_commutative(a: SRestrictionSet, b: SRestrictionSet)
    ensures
        rset_with(a, b) == rset_with(b, a),
{
    assert(b.owns.union(a.owns) =~= a.owns.union(b.owns));
    assert(b.restrictions.union(a.restrictions) =~= a.restrictions.union(b.restrictions));
}

/// Taking the restrictions of another set keeps the owners and never loses
/// a restriction.
pub proof fn law_with_restrictions_from_keeps_owners(a: SRestrictionSet, b: SRestrictionSet)
    ensures
        rset_with_restrictions_from(a, b).owns == a.owns,
        a.restrictions.subset_of(rset_with_restrictions_from(a, b).restrictions),
        b.restrictions.subset_of(rset_with_restrictions_from(a, b).restrictions),
{
}

} // verus!
