//! Which places may still be accessed after a point in the program.
use vstd::prelude::*;

use crate::grammar::{
    copy_places, lemma_place_set_contains, lemma_place_set_empty, lemma_place_set_push, exprs_view, is_overlapping, is_prefix, lemma_exprs_view, lemma_statements_view, place_set,
    prefix_place, statements_view, var_place, Block, Expr, Ident, Place, PlaceExpr, SBlock, SExpr,
    SPlace, SStatement, SVar, Statement, Var,
};

verus! {

broadcast use vstd::std_specs::vec::axiom_vec_decreases_to_view;

/// The places that may be used after some point of execution.
/// The default value is empty.
pub struct LivePlaces {
    /// Places read or accessed (e.g., `p.ref`).
    accessed: Vec<Place>,
    /// Places some part of which is assigned to (e.g., `p` for `p.f = q`).
    traversed: Vec<Place>,
}

pub struct SLivePlaces {
    pub accessed: Set<SPlace>,
    pub traversed: Set<SPlace>,
}

impl View for LivePlaces {
    type V = SLivePlaces;

    closed spec fn view(&self) -> SLivePlaces {
        SLivePlaces { accessed: place_set(self.accessed@), traversed: place_set(self.traversed@) }
    }
}

/// `place` is live: it overlaps an accessed place, or it is a prefix of a
/// traversed one.
pub open spec fn live(l: SLivePlaces, place: SPlace) -> bool {
    (exists|a: SPlace| l.accessed.contains(a) && is_overlapping(a, place)) || (exists|t: SPlace|
        l.traversed.contains(t) && is_prefix(place, t))
}

pub open spec fn no_places() -> SLivePlaces {
    SLivePlaces { accessed: Set::empty(), traversed: Set::empty() }
}

pub open spec fn live_accessed(l: SLivePlaces, place: SPlace) -> SLivePlaces {
    SLivePlaces { accessed: l.accessed.insert(place), traversed: l.traversed }
}

pub open spec fn live_union(a: SLivePlaces, b: SLivePlaces) -> SLivePlaces {
    SLivePlaces { accessed: a.accessed + b.accessed, traversed: a.traversed + b.traversed }
}

/// The owner of `place` (the place with its last projection removed), if any.
pub open spec fn owner_of(place: SPlace) -> Option<SPlace> {
    if place.projections.len() == 0 {
        None
    } else {
        Some(prefix_place(place, place.projections.len() - 1))
    }
}

/// After `place` is overwritten, nothing under it is live any more, but its
/// owner is traversed.
pub open spec fn live_overwritten(l: SLivePlaces, place: SPlace) -> SLivePlaces {
    let accessed = l.accessed.filter(|p: SPlace| !is_prefix(place, p));
    let traversed = l.traversed.filter(|p: SPlace| !is_prefix(place, p));
    SLivePlaces {
        accessed,
        traversed: match owner_of(place) {
            Some(o) => traversed.insert(o),
            None => traversed,
        },
    }
}

/// The variables of a set of live places.
pub open spec fn live_vars(l: SLivePlaces) -> Set<SVar> {
    (l.accessed + l.traversed).map(|p: SPlace| p.var)
}

fn append_places(dst: &mut Vec<Place>, src: &Vec<Place>)
    ensures
        place_set(final(dst)@) == place_set(old(dst)@) + place_set(src@),
{
    let ghost start = place_set(dst@);
    let mut i: usize = 0;
    proof {
        lemma_place_set_empty();
        assert(src@.subrange(0, 0) =~= Seq::<Place>::empty());
        assert(start + Set::<SPlace>::empty() =~= start);
    }
    while i < src.len()
        invariant
            i <= src@.len(),
            place_set(dst@) == start + place_set(src@.subrange(0, i as int)),
        decreases src.len() - i,
    {
        let p = src[i].copy();
        proof {
            lemma_place_set_push(dst@, p);
            assert(src@.subrange(0, i + 1) =~= src@.subrange(0, i as int).push(src@[i as int]));
            lemma_place_set_push(src@.subrange(0, i as int), src@[i as int]);
        }
        dst.push(p);
        i = i + 1;
        proof {
            assert(place_set(dst@) =~= start + place_set(src@.subrange(0, i as int)));
        }
    }
    proof {
        assert(src@.subrange(0, i as int) =~= src@);
    }
}

/// The places of `ps` that `place` is not a prefix of.
fn without_places_under(ps: &Vec<Place>, place: &Place) -> (r: Vec<Place>)
    ensures
        place_set(r@) == place_set(ps@).filter(|p: SPlace| !is_prefix(place@, p)),
{
    let ghost f = |p: SPlace| !is_prefix(place@, p);
    let mut r: Vec<Place> = Vec::new();
    let mut i: usize = 0;
    proof {
        lemma_place_set_empty();
        assert(ps@.subrange(0, 0) =~= Seq::<Place>::empty());
        assert(Set::<SPlace>::empty().filter(f) =~= Set::<SPlace>::empty());
    }
    while i < ps.len()
        invariant
            i <= ps@.len(),
            f == (|p: SPlace| !is_prefix(place@, p)),
            place_set(r@) == place_set(ps@.subrange(0, i as int)).filter(f),
        decreases ps.len() - i,
    {
        proof {
            assert(ps@.subrange(0, i + 1) =~= ps@.subrange(0, i as int).push(ps@[i as int]));
            lemma_place_set_push(ps@.subrange(0, i as int), ps@[i as int]);
        }
        if !place.is_prefix_of(&ps[i]) {
            let p = ps[i].copy();
            proof {
                lemma_place_set_push(r@, p);
            }
            r.push(p);
            proof {
                assert(place_set(r@) =~= place_set(ps@.subrange(0, i + 1)).filter(f));
            }
        } else {
            proof {
                assert(place_set(r@) =~= place_set(ps@.subrange(0, i + 1)).filter(f));
            }
        }
        i = i + 1;
    }
    proof {
        assert(ps@.subrange(0, i as int) =~= ps@);
    }
    r
}

/// True if some place of `ps` overlaps `place`.
fn any_overlapping(ps: &Vec<Place>, place: &Place) -> (r: bool)
    ensures
        r == exists|a: SPlace| place_set(ps@).contains(a) && is_overlapping(a, place@),
{
    let mut i: usize = 0;
    while i < ps.len()
        invariant
            i <= ps@.len(),
            forall|j: int| 0 <= j < i ==> !is_overlapping(#[trigger] ps@[j]@, place@),
        decreases ps.len() - i,
    {
        if ps[i].is_overlapping_with(place) {
            proof {
                lemma_place_set_contains(ps@, ps@[i as int]@);
            }
            return true;
        }
        i = i + 1;
    }
    proof {
        assert forall|a: SPlace| place_set(ps@).contains(a) implies !is_overlapping(a, place@) by {
            lemma_place_set_contains(ps@, a);
        }
    }
    false
}

/// True if `place` is a prefix of some place of `ps`.
fn any_under(ps: &Vec<Place>, place: &Place) -> (r: bool)
    ensures
        r == exists|t: SPlace| place_set(ps@).contains(t) && is_prefix(place@, t),
{
    let mut i: usize = 0;
    while i < ps.len()
        invariant
            i <= ps@.len(),
            forall|j: int| 0 <= j < i ==> !is_prefix(place@, #[trigger] ps@[j]@),
        decreases ps.len() - i,
    {
        if place.is_prefix_of(&ps[i]) {
            proof {
                lemma_place_set_contains(ps@, ps@[i as int]@);
            }
            return true;
        }
        i = i + 1;
    }
    proof {
        assert forall|t: SPlace| place_set(ps@).contains(t) implies !is_prefix(place@, t) by {
            lemma_place_set_contains(ps@, t);
        }
    }
    false
}

impl LivePlaces {
    /// No live places.
    pub fn new() -> (r: LivePlaces)
        ensures
            r@ == no_places(),
    {
        proof {
            lemma_place_set_empty();
        }
        LivePlaces { accessed: Vec::new(), traversed: Vec::new() }
    }

    pub fn copy(&self) -> (r: LivePlaces)
        ensures
            r@ == self@,
    {
        LivePlaces { accessed: copy_places(&self.accessed), traversed: copy_places(&self.traversed) }
    }

    /// True if `place` is live: it, some part of it, or something it is
    /// part of may be accessed after this point.
    pub fn is_live(&self, place: &Place) -> (r: bool)
        ensures
            r == live(self@, place@),
    {
        any_overlapping(&self.accessed, place) || any_under(&self.traversed, place)
    }

    /// True if some place of `places` is live.
    pub fn any_live(&self, places: &Vec<Place>) -> (r: bool)
        ensures
            r == exists|p: SPlace| place_set(places@).contains(p) && live(self@, p),
    {
        let mut i: usize = 0;
        while i < places.len()
            invariant
                i <= places@.len(),
                forall|j: int| 0 <= j < i ==> !live(self@, #[trigger] places@[j]@),
            decreases places.len() - i,
        {
            if self.is_live(&places[i]) {
                proof {
                    lemma_place_set_contains(places@, places@[i as int]@);
                }
                return true;
            }
            i = i + 1;
        }
        proof {
            assert forall|p: SPlace| !(place_set(places@).contains(p) && live(self@, p)) by {
                lemma_place_set_contains(places@, p);
                if place_set(places@).contains(p) {
                    let j = choose|j: int| 0 <= j < places@.len() && #[trigger] places@[j]@ == p;
                    assert(!live(self@, places@[j]@));
                }
            }
        }
        false
    }

    /// The live places after `place` is overwritten: nothing at or under
    /// `place` remains, and its owner (if any) is traversed.
    pub fn overwritten(self, place: &Place) -> (r: LivePlaces)
        ensures
            r@ == live_overwritten(self@, place@),
    {
        let accessed = without_places_under(&self.accessed, place);
        let mut traversed = without_places_under(&self.traversed, place);
        match place.owner() {
            Some(owner) => {
                proof {
                    lemma_place_set_push(traversed@, owner);
                }
                traversed.push(owner);
            },
            None => {},
        }
        LivePlaces { accessed, traversed }
    }

    /// The live places with `place` also accessed.
    pub fn accessed(self, place: &Place) -> (r: LivePlaces)
        ensures
            r@ == live_accessed(self@, place@),
    {
        let mut accessed = self.accessed;
        let p = place.copy();
        proof {
            lemma_place_set_push(accessed@, p);
        }
        accessed.push(p);
        LivePlaces { accessed, traversed: self.traversed }
    }

    /// The places live in either.
    pub fn union(self, other: LivePlaces) -> (r: LivePlaces)
        ensures
            r@ == live_union(self@, other@),
    {
        let mut accessed = self.accessed;
        append_places(&mut accessed, &other.accessed);
        let mut traversed = self.traversed;
        append_places(&mut traversed, &other.traversed);
        LivePlaces { accessed, traversed }
    }

    /// The variables of the live places.
    pub fn vars(&self) -> (r: Vec<Var>)
        ensures
            r@.map_values(|v: Var| v@).to_set() == live_vars(self@),
    {
        let mut r: Vec<Var> = Vec::new();
        let mut i: usize = 0;
        while i < self.accessed.len()
            invariant
                i <= self.accessed@.len(),
                r@.len() == i,
                forall|j: int| 0 <= j < i ==> #[trigger] r@[j]@ == self.accessed@[j]@.var,
            decreases self.accessed.len() - i,
        {
            r.push(self.accessed[i].var.copy());
            i = i + 1;
        }
        let n = self.accessed.len();
        let mut k: usize = 0;
        while k < self.traversed.len()
            invariant
                n == self.accessed@.len(),
                k <= self.traversed@.len(),
                r@.len() == n + k,
                forall|j: int| 0 <= j < n ==> #[trigger] r@[j]@ == self.accessed@[j]@.var,
                forall|j: int| 0 <= j < k ==> #[trigger] r@[n + j]@ == self.traversed@[j]@.var,
            decreases self.traversed.len() - k,
        {
            r.push(self.traversed[k].var.copy());
            k = k + 1;
        }
        proof {
            let vs = r@.map_values(|v: Var| v@);
            assert forall|x: SVar| vs.to_set().contains(x) <==> live_vars(self@).contains(x) by {
                if vs.to_set().contains(x) {
                    assert(vs.contains(x));
                    let j = choose|j: int| 0 <= j < vs.len() && vs[j] == x;
                    if j < n {
                        lemma_place_set_contains(self.accessed@, self.accessed@[j]@);
                        assert((self@.accessed + self@.traversed).contains(self.accessed@[j]@));
                    } else {
                        assert(r@[n + (j - n)]@ == self.traversed@[j - n]@.var);
                        lemma_place_set_contains(self.traversed@, self.traversed@[j - n]@);
                        assert((self@.accessed + self@.traversed).contains(self.traversed@[j - n]@));
                    }
                }
                if live_vars(self@).contains(x) {
                    let p = choose|p: SPlace| (self@.accessed + self@.traversed).contains(p) && p.var == x;
                    if self@.accessed.contains(p) {
                        lemma_place_set_contains(self.accessed@, p);
                        let j = choose|j: int| 0 <= j < self.accessed@.len() && #[trigger] self.accessed@[j]@ == p;
                        assert(vs[j] == x);
                        assert(vs.contains(x));
                    } else {
                        lemma_place_set_contains(self.traversed@, p);
                        let j = choose|j: int| 0 <= j < self.traversed@.len() && #[trigger] self.traversed@[j]@ == p;
                        assert(vs[n + j] == x);
                        assert(vs.contains(x));
                    }
                }
            }
            assert(vs.to_set() =~= live_vars(self@));
        }
        r
    }

    /// The live places just before `term` is evaluated.
    pub fn before<T: AdjustLiveVars>(&self, term: &T) -> (r: LivePlaces)
        ensures
            r@ == T::live_before(term@, self@),
    {
        term.adjust_live_vars(self.copy())
    }

    /// The places live just before any one of `terms` is evaluated.
    pub fn before_all<T: AdjustLiveVars>(&self, terms: &Vec<T>) -> (r: LivePlaces)
        ensures
            r@ == live_before_any::<T>(terms@, self@),
    {
        let mut acc = LivePlaces::new();
        let mut i: usize = 0;
        while i < terms.len()
            invariant
                i <= terms@.len(),
                acc@ == live_before_any::<T>(terms@.subrange(0, i as int), self@),
            decreases terms.len() - i,
        {
            let before = terms[i].adjust_live_vars(self.copy());
            acc = acc.union(before);
            proof {
                assert(terms@.subrange(0, i + 1).subrange(0, i as int) =~= terms@.subrange(0, i as int));
            }
            i = i + 1;
        }
        proof {
            assert(terms@.subrange(0, i as int) =~= terms@);
        }
        acc
    }
}

impl Default for LivePlaces {
    fn default() -> (r: LivePlaces)
        ensures
            r@ == no_places(),
    {
        LivePlaces::new()
    }
}

/// The union, over `terms`, of the places live before each of them.
pub open spec fn live_before_any<T: AdjustLiveVars>(terms: Seq<T>, l: SLivePlaces) -> SLivePlaces
    decreases terms.len(),
{
    if terms.len() == 0 {
        no_places()
    } else {
        live_union(
            live_before_any::<T>(terms.subrange(0, terms.len() - 1), l),
            T::live_before(terms[terms.len() - 1]@, l),
        )
    }
}

/// Terms that can compute the places live before them from those live after.
pub trait AdjustLiveVars: View + Sized {
    spec fn live_before(term: Self::V, live: SLivePlaces) -> SLivePlaces;

    fn adjust_live_vars(&self, vars: LivePlaces) -> (r: LivePlaces)
        ensures
            r@ == Self::live_before(self@, vars@),
    ;
}

// ---------------------------------------------------------------------------
// Liveness through expressions and statements
// ---------------------------------------------------------------------------

/// The places live before `e` runs, given those live after it. Operands
/// are evaluated left to right, so liveness flows from right to left.
pub open spec fn live_before_expr(e: SExpr, l: SLivePlaces) -> SLivePlaces
    decreases e,
{
    match e {
        SExpr::Block(b) => live_before_block(b, l),
        SExpr::Integer(_) => l,
        SExpr::True => l,
        SExpr::False => l,
        SExpr::BinaryOp(lhs, _, rhs) => live_before_expr(*lhs, live_before_expr(*rhs, l)),
        SExpr::Place(pe) => live_accessed(l, pe.place),
        SExpr::Share(x) => live_before_expr(*x, l),
        SExpr::Tuple(es) => live_before_exprs(es, l),
        SExpr::Call(r, _, _, args) => live_before_expr(*r, live_before_exprs(args, l)),
        SExpr::New(_, _, args) => live_before_exprs(args, l),
        SExpr::Clear(_) => l,
        SExpr::If(c, a, b) => live_before_expr(
            *c,
            live_union(live_before_expr(*a, l), live_before_expr(*b, l)),
        ),
        SExpr::SizeOf(_) => l,
        SExpr::ArrayNew(_, x) => live_before_expr(*x, l),
        SExpr::ArrayCapacity(_, x) => live_before_expr(*x, l),
        SExpr::ArrayGive(_, a, b) => live_before_expr(*a, live_before_expr(*b, l)),
        SExpr::ArrayDrop(_, a, b, c) => live_before_expr(
            *a,
            live_before_expr(*b, live_before_expr(*c, l)),
        ),
        SExpr::ArrayWrite(_, a, b, c) => live_before_expr(
            *a,
            live_before_expr(*b, live_before_expr(*c, l)),
        ),
        SExpr::IsLastRef(_, x) => live_before_expr(*x, l),
        SExpr::Panic => l,
    }
}

pub open spec fn live_before_exprs(s: Seq<SExpr>, l: SLivePlaces) -> SLivePlaces
    decreases s,
{
    if s.len() == 0 {
        l
    } else {
        live_before_expr(s[0], live_before_exprs(s.subrange(1, s.len() as int), l))
    }
}

pub open spec fn live_before_block(b: SBlock, l: SLivePlaces) -> SLivePlaces
    decreases b,
{
    live_before_statements(b.statements, l)
}

pub open spec fn live_before_statements(s: Seq<SStatement>, l: SLivePlaces) -> SLivePlaces
    decreases s,
{
    if s.len() == 0 {
        l
    } else {
        live_before_statement(s[0], live_before_statements(s.subrange(1, s.len() as int), l))
    }
}

pub open spec fn live_before_statement(st: SStatement, l: SLivePlaces) -> SLivePlaces
    decreases st,
{
    match st {
        SStatement::Expr(e) => live_before_expr(e, l),
        SStatement::Let(v, _, e) => live_before_expr(*e, live_overwritten(l, var_place(SVar::Id(v)))),
        SStatement::Reassign(p, e) => live_before_expr(e, live_overwritten(l, p)),
        SStatement::Loop(b) => live_before_block(b, l),
        SStatement::Break => l,
        SStatement::Return(e) => live_before_expr(e, l),
        SStatement::Print(e) => live_before_expr(e, l),
    }
}

fn adjust_expr(e: &Expr, l: LivePlaces) -> (r: LivePlaces)
    ensures
        r@ == live_before_expr(e@, l@),
    decreases e,
{
    match e {
        Expr::Block(b) => {
            proof {
                assert(decreases_to!(*e => (*e)->Block_0));
                assert(e@ == SExpr::Block(b@));
                assert(b@.statements == statements_view(b.statements@));
                assert(live_before_expr(e@, l@) == live_before_block(b@, l@));
                assert(live_before_block(b@, l@) == live_before_statements(b@.statements, l@));
            }
            adjust_statements(&b.statements, l)
        },
        Expr::Integer(_) | Expr::True | Expr::False | Expr::Clear(_) | Expr::SizeOf(_) | Expr::Panic => l,
        Expr::BinaryOp(lhs, _, rhs) => {
            let l = adjust_expr(rhs, l);
            adjust_expr(lhs, l)
        },
        Expr::Place(pe) => l.accessed(&pe.place),
        Expr::Share(x) => adjust_expr(x, l),
        Expr::Tuple(es) => {
            proof {
                assert(decreases_to!(*e => (*e)->Tuple_0));
            }
            adjust_exprs(es, l)
        },
        Expr::Call(r, _, _, args) => {
            proof {
                assert(decreases_to!(*e => (*e)->Call_3));
            }
            let l = adjust_exprs(args, l);
            adjust_expr(r, l)
        },
        Expr::New(_, _, args) => {
            proof {
                assert(decreases_to!(*e => (*e)->New_2));
            }
            adjust_exprs(args, l)
        },
        Expr::If(c, a, b) => {
            let la = adjust_expr(a, l.copy());
            let lb = adjust_expr(b, l);
            adjust_expr(c, la.union(lb))
        },
        Expr::ArrayNew(_, x) | Expr::ArrayCapacity(_, x) | Expr::IsLastRef(_, x) => adjust_expr(x, l),
        Expr::ArrayGive(_, a, b) => {
            let l = adjust_expr(b, l);
            adjust_expr(a, l)
        },
        Expr::ArrayDrop(_, a, b, c) | Expr::ArrayWrite(_, a, b, c) => {
            let l = adjust_expr(c, l);
            let l = adjust_expr(b, l);
            adjust_expr(a, l)
        },
    }
}

pub(crate) fn adjust_exprs(es: &Vec<Expr>, l: LivePlaces) -> (r: LivePlaces)
    ensures
        r@ == live_before_exprs(exprs_view(es@), l@),
    decreases es,
{
    let ghost ev = exprs_view(es@);
    let ghost after = l@;
    proof {
        lemma_exprs_view(es@);
        assert(ev.subrange(es@.len() as int, es@.len() as int) =~= Seq::<SExpr>::empty());
    }
    let mut acc = l;
    let mut i: usize = es.len();
    while i > 0
        invariant
            ev == exprs_view(es@),
            ev.len() == es@.len(),
            forall|j: int| 0 <= j < es@.len() ==> #[trigger] ev[j] == es@[j]@,
            i <= es@.len(),
            acc@ == live_before_exprs(ev.subrange(i as int, ev.len() as int), after),
        decreases i,
    {
        i = i - 1;
        proof {
            assert(decreases_to!(es => es@));
            let sub = ev.subrange(i as int, ev.len() as int);
            assert(sub.subrange(1, sub.len() as int) =~= ev.subrange(i + 1, ev.len() as int));
            assert(sub[0] == es@[i as int]@);
        }
        acc = adjust_expr(&es[i], acc);
    }
    proof {
        assert(ev.subrange(0, ev.len() as int) =~= ev);
    }
    acc
}

fn adjust_statement(st: &Statement, l: LivePlaces) -> (r: LivePlaces)
    ensures
        r@ == live_before_statement(st@, l@),
    decreases st,
{
    match st {
        Statement::Expr(e) => adjust_expr(e, l),
        Statement::Let(v, _, e) => {
            let place = Place::from_var(Var::Id(v.copy()));
            adjust_expr(e, l.overwritten(&place))
        },
        Statement::Reassign(p, e) => adjust_expr(e, l.overwritten(p)),
        Statement::Loop(b) => {
            proof {
                assert(decreases_to!(*st => (*st)->Loop_0));
                assert(b@.statements == statements_view(b.statements@));
            }
            adjust_statements(&b.statements, l)
        },
        Statement::Break => l,
        Statement::Return(e) => adjust_expr(e, l),
        Statement::Print(e) => adjust_expr(e, l),
    }
}

pub(crate) fn adjust_statements(ss: &Vec<Statement>, l: LivePlaces) -> (r: LivePlaces)
    ensures
        r@ == live_before_statements(statements_view(ss@), l@),
    decreases ss,
{
    let ghost sv = statements_view(ss@);
    let ghost after = l@;
    proof {
        lemma_statements_view(ss@);
        assert(sv.subrange(ss@.len() as int, ss@.len() as int) =~= Seq::<SStatement>::empty());
    }
    let mut acc = l;
    let mut i: usize = ss.len();
    while i > 0
        invariant
            sv == statements_view(ss@),
            sv.len() == ss@.len(),
            forall|j: int| 0 <= j < ss@.len() ==> #[trigger] sv[j] == ss@[j]@,
            i <= ss@.len(),
            acc@ == live_before_statements(sv.subrange(i as int, sv.len() as int), after),
        decreases i,
    {
        i = i - 1;
        proof {
            assert(decreases_to!(ss => ss@));
            let sub = sv.subrange(i as int, sv.len() as int);
            assert(sub.subrange(1, sub.len() as int) =~= sv.subrange(i + 1, sv.len() as int));
            assert(sub[0] == ss@[i as int]@);
        }
        acc = adjust_statement(&ss[i], acc);
    }
    proof {
        assert(sv.subrange(0, sv.len() as int) =~= sv);
    }
    acc
}

impl AdjustLiveVars for Expr {
    open spec fn live_before(term: SExpr, live: SLivePlaces) -> SLivePlaces {
        live_before_expr(term, live)
    }

    fn adjust_live_vars(&self, vars: LivePlaces) -> (r: LivePlaces) {
        adjust_expr(self, vars)
    }
}

impl AdjustLiveVars for Statement {
    open spec fn live_before(term: SStatement, live: SLivePlaces) -> SLivePlaces {
        live_before_statement(term, live)
    }

    fn adjust_live_vars(&self, vars: LivePlaces) -> (r: LivePlaces) {
        adjust_statement(self, vars)
    }
}

impl AdjustLiveVars for Block {
    open spec fn live_before(term: SBlock, live: SLivePlaces) -> SLivePlaces {
        live_before_block(term, live)
    }

    fn adjust_live_vars(&self, vars: LivePlaces) -> (r: LivePlaces) {
        assert(self@.statements == statements_view(self.statements@));
        adjust_statements(&self.statements, vars)
    }
}

impl AdjustLiveVars for Vec<Statement> {
    open spec fn live_before(term: Seq<Statement>, live: SLivePlaces) -> SLivePlaces {
        live_before_statements(statements_view(term), live)
    }

    fn adjust_live_vars(&self, vars: LivePlaces) -> (r: LivePlaces) {
        adjust_statements(self, vars)
    }
}

impl AdjustLiveVars for Vec<Expr> {
    open spec fn live_before(term: Seq<Expr>, live: SLivePlaces) -> SLivePlaces {
        live_before_exprs(exprs_view(term), live)
    }

    fn adjust_live_vars(&self, vars: LivePlaces) -> (r: LivePlaces) {
        adjust_exprs(self, vars)
    }
}

impl AdjustLiveVars for PlaceExpr {
    open spec fn live_before(term: crate::grammar::SPlaceExpr, live: SLivePlaces) -> SLivePlaces {
        live_accessed(live, term.place)
    }

    fn adjust_live_vars(&self, vars: LivePlaces) -> (r: LivePlaces) {
        vars.accessed(&self.place)
    }
}

impl AdjustLiveVars for Place {
    open spec fn live_before(term: SPlace, live: SLivePlaces) -> SLivePlaces {
        live_accessed(live, term)
    }

    fn adjust_live_vars(&self, vars: LivePlaces) -> (r: LivePlaces) {
        vars.accessed(self)
    }
}


// ---------------------------------------------------------------------------
// Laws
// ---------------------------------------------------------------------------

/// A place that is accessed is live.
pub proof fn law_accessed_place_is_live(l: SLivePlaces, p: SPlace)
    ensures
        live(live_accessed(l, p), p),
{
    assert(p.projections.is_prefix_of(p.projections));
    assert(live_accessed(l, p).accessed.contains(p) && is_overlapping(p, p));
}

/// What is live in either of two sets of live places is live in their union.
pub proof fn law_union_keeps_live(a: SLivePlaces, b: SLivePlaces, p: SPlace)
    ensures
        live(a, p) ==> live(live_union(a, b), p),
        live(b, p) ==> live(live_union(a, b), p),
        live(live_union(a, b), p) ==> live(a, p) || live(b, p),
{
    let u = live_union(a, b);
    if live(a, p) {
        if exists|x: SPlace| a.accessed.contains(x) && is_overlapping(x, p) {
            let x = choose|x: SPlace| a.accessed.contains(x) && is_overlapping(x, p);
            assert(u.accessed.contains(x));
        } else {
            let x = choose|x: SPlace| a.traversed.contains(x) && is_prefix(p, x);
            assert(u.traversed.contains(x));
        }
    }
    if live(b, p) {
        if exists|x: SPlace| b.accessed.contains(x) && is_overlapping(x, p) {
            let x = choose|x: SPlace| b.accessed.contains(x) && is_overlapping(x, p);
            assert(u.accessed.contains(x));
        } else {
            let x = choose|x: SPlace| b.traversed.contains(x) && is_prefix(p, x);
            assert(u.traversed.contains(x));
        }
    }
}

/// Once a whole variable is overwritten, it is no longer live.
pub proof fn law_overwritten_variable_is_dead(l: SLivePlaces, v: SVar)
    ensures
        !live(live_overwritten(l, var_place(v)), var_place(v)),
{
    let p = var_place(v);
    let o = live_overwritten(l, p);
    assert(owner_of(p) is None);
    assert forall|a: SPlace| o.accessed.contains(a) implies !is_overlapping(a, p) by {
        if is_overlapping(a, p) {
            assert(a.var == v);
            assert(p.projections =~= a.projections.subrange(0, 0));
            assert(is_prefix(p, a));
        }
    }
    assert forall|t: SPlace| o.traversed.contains(t) implies !is_prefix(p, t) by {}
}

/// Before a place is read, it is live.
pub proof fn law_place_read_is_live(pe: crate::grammar::SPlaceExpr, l: SLivePlaces)
    ensures
        live(live_before_expr(SExpr::Place(pe), l), pe.place),
{
    law_accessed_place_is_live(l, pe.place);
}

/// Every place accessed or traversed in `a` is also so in `b`.
pub open spec fn live_within(a: SLivePlaces, b: SLivePlaces) -> bool {
    a.accessed.subset_of(b.accessed) && a.traversed.subset_of(b.traversed)
}

proof fn lemma_overwritten_within(a: SLivePlaces, b: SLivePlaces, p: SPlace)
    requires
        live_within(a, b),
    ensures
        live_within(live_overwritten(a, p), live_overwritten(b, p)),
{
}

/// More live places afterwards never means fewer live places before an
/// expression.
pub proof fn law_live_before_expr_monotone(e: SExpr, a: SLivePlaces, b: SLivePlaces)
    requires
        live_within(a, b),
    ensures
        live_within(live_before_expr(e, a), live_before_expr(e, b)),
    decreases e,
{
    match e {
        SExpr::Block(bl) => law_live_before_block_monotone(bl, a, b),
        SExpr::BinaryOp(lhs, _, rhs) => {
            law_live_before_expr_monotone(*rhs, a, b);
            law_live_before_expr_monotone(*lhs, live_before_expr(*rhs, a), live_before_expr(*rhs, b));
        },
        SExpr::Share(x) => law_live_before_expr_monotone(*x, a, b),
        SExpr::Tuple(es) => lemma_live_before_exprs_monotone(es, a, b),
        SExpr::Call(r, _, _, args) => {
            lemma_live_before_exprs_monotone(args, a, b);
            law_live_before_expr_monotone(*r, live_before_exprs(args, a), live_before_exprs(args, b));
        },
        SExpr::New(_, _, args) => lemma_live_before_exprs_monotone(args, a, b),
        SExpr::If(c, x, y) => {
            law_live_before_expr_monotone(*x, a, b);
            law_live_before_expr_monotone(*y, a, b);
            law_live_before_expr_monotone(
                *c,
                live_union(live_before_expr(*x, a), live_before_expr(*y, a)),
                live_union(live_before_expr(*x, b), live_before_expr(*y, b)),
            );
        },
        SExpr::ArrayNew(_, x) => law_live_before_expr_monotone(*x, a, b),
        SExpr::ArrayCapacity(_, x) => law_live_before_expr_monotone(*x, a, b),
        SExpr::IsLastRef(_, x) => law_live_before_expr_monotone(*x, a, b),
        SExpr::ArrayGive(_, x, y) => {
            law_live_before_expr_monotone(*y, a, b);
            law_live_before_expr_monotone(*x, live_before_expr(*y, a), live_before_expr(*y, b));
        },
        SExpr::ArrayDrop(_, x, y, z) => {
            law_live_before_expr_monotone(*z, a, b);
            law_live_before_expr_monotone(*y, live_before_expr(*z, a), live_before_expr(*z, b));
            law_live_before_expr_monotone(
                *x,
                live_before_expr(*y, live_before_expr(*z, a)),
                live_before_expr(*y, live_before_expr(*z, b)),
            );
        },
        SExpr::ArrayWrite(_, x, y, z) => {
            law_live_before_expr_monotone(*z, a, b);
            law_live_before_expr_monotone(*y, live_before_expr(*z, a), live_before_expr(*z, b));
            law_live_before_expr_monotone(
                *x,
                live_before_expr(*y, live_before_expr(*z, a)),
                live_before_expr(*y, live_before_expr(*z, b)),
            );
        },
        _ => {},
    }
}

proof fn lemma_live_before_exprs_monotone(s: Seq<SExpr>, a: SLivePlaces, b: SLivePlaces)
    requires
        live_within(a, b),
    ensures
        live_within(live_before_exprs(s, a), live_before_exprs(s, b)),
    decreases s,
{
    if s.len() > 0 {
        let rest = s.subrange(1, s.len() as int);
        lemma_live_before_exprs_monotone(rest, a, b);
        law_live_before_expr_monotone(s[0], live_before_exprs(rest, a), live_before_exprs(rest, b));
    }
}

/// More live places afterwards never means fewer live places before a
/// block.
pub proof fn law_live_before_block_monotone(bl: SBlock, a: SLivePlaces, b: SLivePlaces)
    requires
        live_within(a, b),
    ensures
        live_within(live_before_block(bl, a), live_before_block(bl, b)),
    decreases bl,
{
    lemma_live_before_statements_monotone(bl.statements, a, b);
}

proof fn lemma_live_before_statements_monotone(s: Seq<SStatement>, a: SLivePlaces, b: SLivePlaces)
    requires
        live_within(a, b),
    ensures
        live_within(live_before_statements(s, a), live_before_statements(s, b)),
    decreases s,
{
    if s.len() > 0 {
        let rest = s.subrange(1, s.len() as int);
        lemma_live_before_statements_monotone(rest, a, b);
        law_live_before_statement_monotone(s[0], live_before_statements(rest, a), live_before_statements(rest, b));
    }
}

/// More live places afterwards never means fewer live places before a
/// statement.
pub proof fn law_live_before_statement_monotone(st: SStatement, a: SLivePlaces, b: SLivePlaces)
    requires
        live_within(a, b),
    ensures
        live_within(live_before_statement(st, a), live_before_statement(st, b)),
    decreases st,
{
    match st {
        SStatement::Expr(e) => law_live_before_expr_monotone(e, a, b),
        SStatement::Let(v, _, e) => {
            let p = var_place(SVar::Id(v));
            lemma_overwritten_within(a, b, p);
            law_live_before_expr_monotone(*e, live_overwritten(a, p), live_overwritten(b, p));
        },
        SStatement::Reassign(p, e) => {
            lemma_overwritten_within(a, b, p);
            law_live_before_expr_monotone(e, live_overwritten(a, p), live_overwritten(b, p));
        },
        SStatement::Loop(bl) => law_live_before_block_monotone(bl, a, b),
        SStatement::Return(e) => law_live_before_expr_monotone(e, a, b),
        SStatement::Print(e) => law_live_before_expr_monotone(e, a, b),
        SStatement::Break => {},
    }
}

/// Whatever is live in `a` is live in any `b` that holds `a`'s places.
pub proof fn law_live_within_keeps_live(a: SLivePlaces, b: SLivePlaces, p: SPlace)
    requires
        live_within(a, b),
        live(a, p),
    ensures
        live(b, p),
{
}

} // verus!
