//! Tracking which places have been moved out of.
use vstd::prelude::*;

use crate::grammar::{
    copy_places, is_overlapping, is_prefix, lemma_place_set_contains, lemma_place_set_empty,
    lemma_place_set_push, place_set, var_place, Place, SPlace, SVar, Var,
};

verus! {

/// The places moved out of at some point of execution.
/// The default value has nothing moved.
pub struct Flow {
    moved_places: Vec<Place>,
}

impl View for Flow {
    type V = Set<SPlace>;

    closed spec fn view(&self) -> Set<SPlace> {
        place_set(self.moved_places@)
    }
}

/// `place` is (partly) moved: it overlaps a moved place.
pub open spec fn flow_is_moved(f: Set<SPlace>, place: SPlace) -> bool {
    exists|m: SPlace| f.contains(m) && is_overlapping(place, m)
}

/// The moved places after `place` is assigned: nothing at or under it is moved.
pub open spec fn flow_assigned(f: Set<SPlace>, place: SPlace) -> Set<SPlace> {
    f.filter(|m: SPlace| !is_prefix(place, m))
}

/// The moved places after the whole of `var` is moved.
pub open spec fn flow_uninitialized(f: Set<SPlace>, var: SVar) -> Set<SPlace> {
    f.filter(|p: SPlace| p.var != var).insert(var_place(var))
}

/// The places of `ps` for which `keep` returns true, computed by `pred`.
fn retain_places(ps: &Vec<Place>, place: &Place, by_var: bool) -> (r: Vec<Place>)
    ensures
        by_var ==> place_set(r@) == place_set(ps@).filter(|p: SPlace| p.var != place@.var),
        !by_var ==> place_set(r@) == place_set(ps@).filter(|m: SPlace| !is_prefix(place@, m)),
{
    let ghost f = if by_var {
        |p: SPlace| p.var != place@.var
    } else {
        |m: SPlace| !is_prefix(place@, m)
    };
    let mut r: Vec<Place> = Vec::new();
    let mut i: usize = 0;
    proof {
        lemma_place_set_empty();
        assert(ps@.subrange(0, 0) =~= Seq::<Place>::empty());
        assert(Set::<SPlace>::empty().filter(f) =~= Set::<SPlace>::empty());
    }
    while i < ps.len()
        invariant
            i <= ps@.len(),
            f == (if by_var {
                |p: SPlace| p.var != place@.var
            } else {
                |m: SPlace| !is_prefix(place@, m)
            }),
            place_set(r@) == place_set(ps@.subrange(0, i as int)).filter(f),
        decreases ps.len() - i,
    {
        proof {
            assert(ps@.subrange(0, i + 1) =~= ps@.subrange(0, i as int).push(ps@[i as int]));
            lemma_place_set_push(ps@.subrange(0, i as int), ps@[i as int]);
        }
        let keep = if by_var {
            !ps[i].var.same(&place.var)
        } else {
            !place.is_prefix_of(&ps[i])
        };
        assert(keep == f(ps@[i as int]@));
        if keep {
            let p = ps[i].copy();
            proof {
                lemma_place_set_push(r@, p);
            }
            r.push(p);
        }
        proof {
            assert(place_set(r@) =~= place_set(ps@.subrange(0, i + 1)).filter(f));
        }
        i = i + 1;
    }
    proof {
        assert(ps@.subrange(0, i as int) =~= ps@);
    }
    r
}

impl Flow {
    /// Nothing moved.
    pub fn new() -> (r: Flow)
        ensures
            r@ == Set::<SPlace>::empty(),
    {
        proof {
            lemma_place_set_empty();
        }
        Flow { moved_places: Vec::new() }
    }

    /// Combines two flows: a place is moved if it is moved in either.
    pub fn merge(&self, flow: &Flow) -> (r: Flow)
        ensures
            r@ == self@ + flow@,
    {
        let mut moved = copy_places(&self.moved_places);
        let mut i: usize = 0;
        let ghost start = place_set(moved@);
        proof {
            lemma_place_set_empty();
            assert(flow.moved_places@.subrange(0, 0) =~= Seq::<Place>::empty());
            assert(start + Set::<SPlace>::empty() =~= start);
        }
        while i < flow.moved_places.len()
            invariant
                i <= flow.moved_places@.len(),
                place_set(moved@) == start + place_set(flow.moved_places@.subrange(0, i as int)),
            decreases flow.moved_places.len() - i,
        {
            let p = flow.moved_places[i].copy();
            proof {
                lemma_place_set_push(moved@, p);
                assert(flow.moved_places@.subrange(0, i + 1) =~= flow.moved_places@.subrange(0, i as int).push(flow.moved_places@[i as int]));
                lemma_place_set_push(flow.moved_places@.subrange(0, i as int), flow.moved_places@[i as int]);
            }
            moved.push(p);
            i = i + 1;
            proof {
                assert(place_set(moved@) =~= start + place_set(flow.moved_places@.subrange(0, i as int)));
            }
        }
        proof {
            assert(flow.moved_places@.subrange(0, i as int) =~= flow.moved_places@);
        }
        Flow { moved_places: moved }
    }

    /// True if `place`, a part of it, or a place containing it was moved.
    pub fn is_moved(&self, place: &Place) -> (r: bool)
        ensures
            r == flow_is_moved(self@, place@),
    {
        let mut i: usize = 0;
        while i < self.moved_places.len()
            invariant
                i <= self.moved_places@.len(),
                forall|j: int| 0 <= j < i ==> !is_overlapping(place@, #[trigger] self.moved_places@[j]@),
            decreases self.moved_places.len() - i,
        {
            let m = &self.moved_places[i];
            if place.is_prefix_of(m) || m.is_prefix_of(place) {
                proof {
                    lemma_place_set_contains(self.moved_places@, m@);
                }
                return true;
            }
            i = i + 1;
        }
        proof {
            assert forall|m: SPlace| self@.contains(m) implies !is_overlapping(place@, m) by {
                lemma_place_set_contains(self.moved_places@, m);
            }
        }
        false
    }

    /// True if the whole of `var` is moved.
    /// May be false when only some fields of `var` are moved.
    pub fn variable_uninitialized(&self, var: &Var) -> (r: bool)
        ensures
            r == self@.contains(var_place(var@)),
    {
        let place = Place::from_var(var.copy());
        let mut i: usize = 0;
        while i < self.moved_places.len()
            invariant
                place@ == var_place(var@),
                i <= self.moved_places@.len(),
                forall|j: int| 0 <= j < i ==> #[trigger] self.moved_places@[j]@ != place@,
            decreases self.moved_places.len() - i,
        {
            if self.moved_places[i].same(&place) {
                proof {
                    lemma_place_set_contains(self.moved_places@, place@);
                }
                return true;
            }
            i = i + 1;
        }
        proof {
            lemma_place_set_contains(self.moved_places@, place@);
        }
        false
    }

    /// Marks all of `var` as moved. `var` must not be wholly moved already:
    /// moving it twice is a type error.
    pub fn uninitialize_var(&self, var: &Var) -> (r: Flow)
        requires
            !self@.contains(var_place(var@)),
        ensures
            r@ == flow_uninitialized(self@, var@),
    {
        let place = Place::from_var(var.copy());
        let mut moved = retain_places(&self.moved_places, &place, true);
        proof {
            lemma_place_set_push(moved@, place);
        }
        moved.push(place);
        Flow { moved_places: moved }
    }

    /// Marks `place` as moved. `place` must not overlap a moved place:
    /// moving it twice is a type error.
    pub fn move_place(&self, place: &Place) -> (r: Flow)
        requires
            !flow_is_moved(self@, place@),
        ensures
            r@ == self@.insert(place@),
    {
        let mut moved = copy_places(&self.moved_places);
        let p = place.copy();
        proof {
            lemma_place_set_push(moved@, p);
        }
        moved.push(p);
        Flow { moved_places: moved }
    }

    /// Marks `place` as assigned: nothing at or under it is moved any more.
    pub fn assign_place(&self, place: &Place) -> (r: Flow)
        ensures
            r@ == flow_assigned(self@, place@),
    {
        Flow { moved_places: retain_places(&self.moved_places, place, false) }
    }
}

impl Default for Flow {
    fn default() -> (r: Flow)
        ensures
            r@ == Set::<SPlace>::empty(),
    {
        Flow::new()
    }
}


// ---------------------------------------------------------------------------
// Laws
// ---------------------------------------------------------------------------

/// Two prefixes of the same place are prefixes of one another, one way or the other.
pub proof fn lemma_prefixes_comparable(a: SPlace, b: SPlace, q: SPlace)
    requires
        is_prefix(a, q),
        is_prefix(b, q),
    ensures
        is_prefix(a, b) || is_prefix(b, a),
{
    if a.projections.len() <= b.projections.len() {
        assert(a.projections =~= b.projections.subrange(0, a.projections.len() as int));
    } else {
        assert(b.projections =~= a.projections.subrange(0, b.projections.len() as int));
    }
}

/// A place that was just moved counts as moved.
pub proof fn law_moved_place_is_moved(f: Set<SPlace>, p: SPlace)
    ensures
        flow_is_moved(f.insert(p), p),
{
    assert(f.insert(p).contains(p));
    assert(p.projections.is_prefix_of(p.projections));
}

/// Assigning a place that was just moved (and overlapped nothing moved
/// before) gives back the flow from before the move.
pub proof fn law_assign_undoes_move(f: Set<SPlace>, p: SPlace)
    requires
        !flow_is_moved(f, p),
    ensures
        flow_assigned(f.insert(p), p) == f,
{
    assert(p.projections.is_prefix_of(p.projections));
    assert forall|m: SPlace| f.contains(m) implies !is_prefix(p, m) by {
        if is_prefix(p, m) {
            assert(is_overlapping(p, m));
        }
    }
    assert(flow_assigned(f.insert(p), p) =~= f);
}

/// After assigning `p`, a place `q` under `p` is moved exactly when some
/// place enclosing `p` (and not itself under `p`) is still moved.
pub proof fn law_assign_reinitializes(f: Set<SPlace>, p: SPlace, q: SPlace)
    requires
        is_prefix(p, q),
    ensures
        flow_is_moved(flow_assigned(f, p), q) <==> exists|m: SPlace|
            f.contains(m) && is_prefix(m, p) && !is_prefix(p, m),
{
    let g = flow_assigned(f, p);
    if flow_is_moved(g, q) {
        let m = choose|m: SPlace| g.contains(m) && is_overlapping(q, m);
        if is_prefix(q, m) {
            assert(p.projections =~= m.projections.subrange(0, p.projections.len() as int)) by {
                assert(p.projections =~= q.projections.subrange(0, p.projections.len() as int));
            }
            assert(is_prefix(p, m));
        } else {
            lemma_prefixes_comparable(m, p, q);
        }
        assert(f.contains(m) && is_prefix(m, p) && !is_prefix(p, m));
    }
    if exists|m: SPlace| f.contains(m) && is_prefix(m, p) && !is_prefix(p, m) {
        let m = choose|m: SPlace| f.contains(m) && is_prefix(m, p) && !is_prefix(p, m);
        assert(m.projections =~= q.projections.subrange(0, m.projections.len() as int)) by {
            assert(m.projections =~= p.projections.subrange(0, m.projections.len() as int));
            assert(p.projections =~= q.projections.subrange(0, p.projections.len() as int));
        }
        assert(g.contains(m));
        assert(is_overlapping(q, m));
    }
}

} // verus!
