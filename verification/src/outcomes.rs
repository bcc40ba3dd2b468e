//! Sets of possible results: when a judgment may be derived in several ways,
//! each derivation gives one set of liens, and the judgment gives the set
//! of them all.
use vstd::prelude::*;

verus! {

/// Every union of one set of `a` with one set of `b`.
pub open spec fn join<A>(a: Set<Set<A>>, b: Set<Set<A>>) -> Set<Set<A>> {
    Set::new(|x: Set<A>| exists|l: Set<A>, r: Set<A>| #![trigger a.contains(l), b.contains(r)]
        a.contains(l) && b.contains(r) && x == l.union(r))
}

/// Joining does not depend on the order of its arguments.
pub proof fn lemma_join_commutative<A>(a: Set<Set<A>>, b: Set<Set<A>>)
    ensures
        join(a, b) == join(b, a),
{
    assert forall|x: Set<A>| join(a, b).contains(x) implies join(b, a).contains(x) by {
        let (l, r) = choose|l: Set<A>, r: Set<A>| #![trigger a.contains(l), b.contains(r)]
            a.contains(l) && b.contains(r) && x == l.union(r);
        assert(x == r.union(l));
    }
    assert forall|x: Set<A>| join(b, a).contains(x) implies join(a, b).contains(x) by {
        let (l, r) = choose|l: Set<A>, r: Set<A>| #![trigger b.contains(l), a.contains(r)]
            b.contains(l) && a.contains(r) && x == l.union(r);
        assert(x == r.union(l));
    }
    assert(join(a, b) =~= join(b, a));
}

/// Joining three collections gives the same whichever two are joined first.
pub proof fn lemma_join_associative<A>(a: Set<Set<A>>, b: Set<Set<A>>, c: Set<Set<A>>)
    ensures
        join(a, join(b, c)) == join(join(a, b), c),
{
    let bc = join(b, c);
    let ab = join(a, b);
    assert forall|x: Set<A>| join(a, bc).contains(x) implies join(ab, c).contains(x) by {
        let (l, m) = choose|l: Set<A>, m: Set<A>| #![trigger a.contains(l), bc.contains(m)]
            a.contains(l) && bc.contains(m) && x == l.union(m);
        let (u, v) = choose|u: Set<A>, v: Set<A>| #![trigger b.contains(u), c.contains(v)]
            b.contains(u) && c.contains(v) && m == u.union(v);
        assert(ab.contains(l.union(u)));
        assert(x == l.union(u).union(v));
    }
    assert forall|x: Set<A>| join(ab, c).contains(x) implies join(a, bc).contains(x) by {
        let (m, v) = choose|m: Set<A>, v: Set<A>| #![trigger ab.contains(m), c.contains(v)]
            ab.contains(m) && c.contains(v) && x == m.union(v);
        let (l, u) = choose|l: Set<A>, u: Set<A>| #![trigger a.contains(l), b.contains(u)]
            a.contains(l) && b.contains(u) && m == l.union(u);
        assert(bc.contains(u.union(v)));
        assert(x == l.union(u.union(v)));
    }
    assert(join(a, bc) =~= join(ab, c));
}

/// The collection holding only the empty set leaves a join unchanged.
pub proof fn lemma_join_unit<A>(a: Set<Set<A>>)
    ensures
        join(a, set![Set::<A>::empty()]) == a,
{
    let e = set![Set::<A>::empty()];
    assert forall|x: Set<A>| join(a, e).contains(x) implies a.contains(x) by {
        let (l, r) = choose|l: Set<A>, r: Set<A>| #![trigger a.contains(l), e.contains(r)]
            a.contains(l) && e.contains(r) && x == l.union(r);
        assert(r == Set::<A>::empty());
        assert(x =~= l);
    }
    assert forall|x: Set<A>| a.contains(x) implies join(a, e).contains(x) by {
        assert(e.contains(Set::<A>::empty()));
        assert(x =~= x.union(Set::<A>::empty()));
    }
    assert(join(a, e) =~= a);
}

} // verus!
