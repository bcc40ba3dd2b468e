//! Terms: the owners of a value and the liens it holds on places.
use vstd::prelude::*;

use crate::grammar::{lemma_place_set_contains, place_set, Place, SPlace, UniversalVar};

verus! {

/// Whether a lien shares or leases its place.
#[derive(PartialEq, Eq, Structural, Clone, Copy)]
pub enum LienKind {
    Shared,
    Leased,
}

/// A lien of kind `kind` on `place`.
pub struct Lien {
    pub kind: LienKind,
    pub place: Place,
}

pub struct SLien {
    pub kind: LienKind,
    pub place: SPlace,
}

impl View for Lien {
    type V = SLien;

    open spec fn view(&self) -> SLien {
        SLien { kind: self.kind, place: self.place@ }
    }
}

/// Who owns a value.
#[derive(PartialEq, Eq, Structural, Clone, Copy)]
pub enum Own {
    My,
    Our,
    Var(UniversalVar),
}

/// The owners of a value and its liens.
pub struct Terms {
    pub owns: Vec<Own>,
    pub liens: Vec<Lien>,
}

pub struct STerms {
    pub owns: Set<Own>,
    pub liens: Set<SLien>,
}

impl View for Terms {
    type V = STerms;

    open spec fn view(&self) -> STerms {
        STerms { owns: self.owns@.to_set(), liens: self.liens@.map_values(|l: Lien| l@).to_set() }
    }
}

pub open spec fn liens_set(s: Seq<Lien>) -> Set<SLien> {
    s.map_values(|l: Lien| l@).to_set()
}

impl Lien {
    pub fn copy(&self) -> (r: Lien)
        ensures
            r@ == self@,
    {
        Lien { kind: self.kind, place: self.place.copy() }
    }
}

fn concat_owns(a: &Vec<Own>, b: &Vec<Own>) -> (r: Vec<Own>)
    ensures
        r@.to_set() == a@.to_set().union(b@.to_set()),
{
    let mut r = a.clone();
    let mut i: usize = 0;
    assert(r@ == a@);
    while i < b.len()
        invariant
            i <= b@.len(),
            r@ == a@ + b@.subrange(0, i as int),
        decreases b.len() - i,
    {
        r.push(b[i]);
        assert(b@.subrange(0, i + 1) =~= b@.subrange(0, i as int).push(b@[i as int]));
        i = i + 1;
    }
    proof {
        assert(b@.subrange(0, b@.len() as int) =~= b@);
        assert forall|x: Own| r@.to_set().contains(x) <==> a@.to_set().union(b@.to_set()).contains(x) by {
            if r@.contains(x) {
                let j = choose|j: int| 0 <= j < r@.len() && r@[j] == x;
                if j < a@.len() {
                    assert(a@[j] == x);
                } else {
                    assert(b@[j - a@.len()] == x);
                }
            }
            if a@.contains(x) {
                let j = choose|j: int| 0 <= j < a@.len() && a@[j] == x;
                assert(r@[j] == x);
            }
            if b@.contains(x) {
                let j = choose|j: int| 0 <= j < b@.len() && b@[j] == x;
                assert(r@[a@.len() + j] == x);
            }
        }
        assert(r@.to_set() =~= a@.to_set().union(b@.to_set()));
    }
    r
}

fn copy_liens(a: &Vec<Lien>) -> (r: Vec<Lien>)
    ensures
        r@.len() == a@.len(),
        forall|j: int| 0 <= j < a@.len() ==> #[trigger] r@[j]@ == a@[j]@,
        liens_set(r@) == liens_set(a@),
{
    let mut r: Vec<Lien> = Vec::new();
    let mut i: usize = 0;
    while i < a.len()
        invariant
            i <= a@.len(),
            r@.len() == i,
            forall|j: int| 0 <= j < i ==> #[trigger] r@[j]@ == a@[j]@,
        decreases a.len() - i,
    {
        r.push(a[i].copy());
        i = i + 1;
    }
    assert(r@.map_values(|l: Lien| l@) =~= a@.map_values(|l: Lien| l@));
    r
}

fn concat_liens(a: &Vec<Lien>, b: &Vec<Lien>) -> (r: Vec<Lien>)
    ensures
        liens_set(r@) == liens_set(a@).union(liens_set(b@)),
{
    let mut r = copy_liens(a);
    let mut i: usize = 0;
    let ghost av = a@.map_values(|l: Lien| l@);
    let ghost bv = b@.map_values(|l: Lien| l@);
    assert(r@.map_values(|l: Lien| l@) =~= av);
    while i < b.len()
        invariant
            av == a@.map_values(|l: Lien| l@),
            bv == b@.map_values(|l: Lien| l@),
            i <= b@.len(),
            r@.map_values(|l: Lien| l@) == av + bv.subrange(0, i as int),
        decreases b.len() - i,
    {
        let ghost before = r@.map_values(|l: Lien| l@);
        r.push(b[i].copy());
        assert(r@.map_values(|l: Lien| l@) =~= before.push(bv[i as int]));
        assert(bv.subrange(0, i + 1) =~= bv.subrange(0, i as int).push(bv[i as int]));
        i = i + 1;
    }
    proof {
        let rv = r@.map_values(|l: Lien| l@);
        assert(bv.subrange(0, bv.len() as int) =~= bv);
        assert forall|x: SLien| rv.to_set().contains(x) <==> av.to_set().union(bv.to_set()).contains(x) by {
            if rv.contains(x) {
                let j = choose|j: int| 0 <= j < rv.len() && rv[j] == x;
                if j < av.len() {
                    assert(av[j] == x);
                } else {
                    assert(bv[j - av.len()] == x);
                }
            }
            if av.contains(x) {
                let j = choose|j: int| 0 <= j < av.len() && av[j] == x;
                assert(rv[j] == x);
            }
            if bv.contains(x) {
                let j = choose|j: int| 0 <= j < bv.len() && bv[j] == x;
                assert(rv[av.len() + j] == x);
            }
        }
        assert(rv.to_set() =~= av.to_set().union(bv.to_set()));
    }
    r
}

/// The terms with every owner and lien of `a` and `b`.
pub open spec fn terms_with(a: STerms, b: STerms) -> STerms {
    STerms { owns: b.owns.union(a.owns), liens: b.liens.union(a.liens) }
}

/// The owners of `a` with the liens of both.
pub open spec fn terms_with_liens_from(a: STerms, b: STerms) -> STerms {
    STerms { owns: a.owns, liens: b.liens.union(a.liens) }
}

impl Terms {
    /// No owner and no lien.
    pub fn new() -> (r: Terms)
        ensures
            r@ == (STerms { owns: Set::empty(), liens: Set::empty() }),
    {
        let r = Terms { owns: Vec::new(), liens: Vec::new() };
        assert(r@.owns =~= Set::<Own>::empty());
        assert(r@.liens =~= Set::<SLien>::empty());
        r
    }

    /// Owned by `our`, with no lien.
    pub fn our() -> (r: Terms)
        ensures
            r@ == (STerms { owns: set![Own::Our], liens: Set::empty() }),
    {
        let r = Terms { owns: vec![Own::Our], liens: Vec::new() };
        assert(r@.owns =~= set![Own::Our]) by {
            assert(r.owns@[0] == Own::Our);
        }
        assert(r@.liens =~= Set::<SLien>::empty());
        r
    }

    /// Owned by the variable `v`, with no lien.
    pub fn var(v: UniversalVar) -> (r: Terms)
        ensures
            r@ == (STerms { owns: set![Own::Var(v)], liens: Set::empty() }),
    {
        let r = Terms { owns: vec![Own::Var(v)], liens: Vec::new() };
        assert(r@.owns =~= set![Own::Var(v)]) by {
            assert(r.owns@[0] == Own::Var(v));
        }
        assert(r@.liens =~= Set::<SLien>::empty());
        r
    }

    /// The owners and liens of both `self` and `other`.
    pub fn with(&self, other: &Terms) -> (r: Terms)
        ensures
            r@ == terms_with(self@, other@),
    {
        Terms { owns: concat_owns(&other.owns, &self.owns), liens: concat_liens(&other.liens, &self.liens) }
    }

    /// The owners of `self` with the liens of both.
    pub fn with_liens_from(&self, other: &Terms) -> (r: Terms)
        ensures
            r@ == terms_with_liens_from(self@, other@),
    {
        Terms { owns: self.owns.clone(), liens: concat_liens(&other.liens, &self.liens) }
    }

    /// No owner, and a lien of kind `kind` on each of `places`.
    pub fn lien(kind: LienKind, places: &Vec<Place>) -> (r: Terms)
        ensures
            r@.owns == Set::<Own>::empty(),
            r@.liens == place_set(places@).map(|p: SPlace| SLien { kind, place: p }),
    {
        let mut liens: Vec<Lien> = Vec::new();
        let mut i: usize = 0;
        while i < places.len()
            invariant
                i <= places@.len(),
                liens@.len() == i,
                forall|j: int| 0 <= j < i ==> #[trigger] liens@[j]@ == (SLien { kind, place: places@[j]@ }),
            decreases places.len() - i,
        {
            liens.push(Lien { kind, place: places[i].copy() });
            i = i + 1;
        }
        let r = Terms { owns: Vec::new(), liens };
        proof {
            let target = place_set(places@).map(|p: SPlace| SLien { kind, place: p });
            let lv = liens@.map_values(|l: Lien| l@);
            assert forall|x: SLien| lv.to_set().contains(x) <==> target.contains(x) by {
                if lv.contains(x) {
                    let j = choose|j: int| 0 <= j < lv.len() && lv[j] == x;
                    lemma_place_set_contains(places@, places@[j]@);
                    assert(place_set(places@).contains(places@[j]@));
                }
                if target.contains(x) {
                    let p = choose|p: SPlace| place_set(places@).contains(p) && SLien { kind, place: p } == x;
                    lemma_place_set_contains(places@, p);
                    let j = choose|j: int| 0 <= j < places@.len() && #[trigger] places@[j]@ == p;
                    assert(lv[j] == x);
                }
            }
            assert(lv.to_set() =~= target);
            assert(r@.owns =~= Set::<Own>::empty());
        }
        r
    }
}

/// Combining terms is commutative.
pub proof fn law_with_commutative(a: STerms, b: STerms)
    ensures
        terms_with(a, b) == terms_with(b, a),
{
    assert(b.owns.union(a.owns) =~= a.owns.union(b.owns));
    assert(b.liens.union(a.liens) =~= a.liens.union(b.liens));
}

/// Taking the liens of other terms keeps the owners and never loses a lien.
pub proof fn law_with_liens_from_keeps_owners(a: STerms, b: STerms)
    ensures
        terms_with_liens_from(a, b).owns == a.owns,
        a.liens.subset_of(terms_with_liens_from(a, b).liens),
        b.liens.subset_of(terms_with_liens_from(a, b).liens),
{
}

} // verus!
