//! Moving values in and out of places: rewriting every place that a term
//! mentions, either to mark a place as moved into the in-flight value or to
//! store variables into other places.
use vstd::prelude::*;

use crate::grammar::{
    var_place, copy_places, exprs_view, is_prefix, lemma_exprs_view, lemma_place_set_contains, lemma_parameters_view, lemma_perms_view,
    lemma_statements_view, parameters_view, perms_view, place_set, statements_view, Ascription,
    Block, DropBody, Expr, FieldDecl, Ident, LocalVariableDecl, MethodBody, MethodDeclBoundData,
    NamedTy, Parameter, Perm, Place, PlaceExpr, Predicate, Projection, SAscription, SBlock, SExpr,
    SFieldDecl, SLocalVariableDecl, SMethodBody, SMethodDeclBoundData, SNamedTy, SParameter, SPerm,
    SPlace, SPlaceExpr, SPredicate, SStatement, STy, SVar, Statement, ThisDecl, Ty, ValueId, Var,
};

verus! {

/// How places are rewritten.
#[derive(Clone, Copy)]
pub enum Transform<'a> {
    /// The value in the place is given away: the place and everything
    /// under it are now reached through the in-flight value.
    Give(&'a Place),
    /// Each variable `vars[i]` is stored into `places[i]`.
    Put(&'a [Var], &'a [Place]),
}

pub enum STransform {
    Give(SPlace),
    Put(Seq<SVar>, Seq<SPlace>),
}

impl<'a> View for Transform<'a> {
    type V = STransform;

    open spec fn view(&self) -> STransform {
        match self {
            Transform::Give(p) => STransform::Give(p@),
            Transform::Put(vars, places) => STransform::Put(
                vars@.map_values(|v: Var| v@),
                places@.map_values(|p: Place| p@),
            ),
        }
    }
}

/// The index of the first occurrence of `v` in `vars`, or -1.
pub open spec fn position_of(vars: Seq<SVar>, v: SVar) -> int {
    if exists|i: int| 0 <= i < vars.len() && vars[i] == v && (forall|j: int| 0 <= j < i ==> vars[j] != v) {
        choose|i: int| 0 <= i < vars.len() && vars[i] == v && (forall|j: int| 0 <= j < i ==> vars[j] != v)
    } else {
        -1
    }
}

/// A transform can be applied when every variable to store has a place.
pub open spec fn transform_wf(t: STransform) -> bool {
    match t {
        STransform::Give(_) => true,
        STransform::Put(vars, places) => vars.len() <= places.len(),
    }
}

/// A transform can rename declared names when every named variable it
/// stores is stored into a named variable.
pub open spec fn transform_renames(t: STransform) -> bool {
    match t {
        STransform::Give(_) => true,
        STransform::Put(vars, places) => forall|i: int|
            0 <= i < vars.len() && #[trigger] vars[i] is Id ==> places[i].var is Id,
    }
}

/// Storing with `t` can rewrite place `p`: if its variable is stored,
/// there is a place to store it into.
pub open spec fn place_storable(p: SPlace, t: STransform) -> bool {
    match t {
        STransform::Give(_) => true,
        STransform::Put(vars, places) => position_of(vars, p.var) < places.len(),
    }
}

/// Storing with `t` can rename the declared name `id`: if `id` is stored,
/// there is a place to store it into and that place is a named variable.
pub open spec fn name_storable(id: Seq<char>, t: STransform) -> bool {
    match t {
        STransform::Give(_) => true,
        STransform::Put(vars, places) => {
            let i = position_of(vars, SVar::Id(id));
            i < places.len() && (i >= 0 ==> places[i].var is Id)
        },
    }
}

/// Every place of `s` can be rewritten by `t`.
pub open spec fn places_storable(s: Set<SPlace>, t: STransform) -> bool {
    forall|q: SPlace| #[trigger] s.contains(q) ==> place_storable(q, t)
}

/// The place `p` after the transform.
pub open spec fn transform_place(p: SPlace, t: STransform) -> SPlace {
    match t {
        STransform::Give(g) => if is_prefix(g, p) {
            SPlace {
                var: SVar::InFlight,
                projections: p.projections.subrange(
                    g.projections.len() as int,
                    p.projections.len() as int,
                ),
            }
        } else {
            p
        },
        STransform::Put(vars, places) => {
            let i = position_of(vars, p.var);
            if i >= 0 {
                SPlace { var: places[i].var, projections: places[i].projections + p.projections }
            } else {
                p
            }
        },
    }
}

/// Finds the first position of `v` in `vars`.
fn find_var(vars: &[Var], v: &Var) -> (r: Option<usize>)
    ensures
        match r {
            Some(i) => i as int == position_of(vars@.map_values(|x: Var| x@), v@),
            None => position_of(vars@.map_values(|x: Var| x@), v@) == -1,
        },
{
    let ghost vs = vars@.map_values(|x: Var| x@);
    let mut i: usize = 0;
    while i < vars.len()
        invariant
            vs == vars@.map_values(|x: Var| x@),
            i <= vars@.len(),
            forall|j: int| 0 <= j < i ==> vs[j] != v@,
        decreases vars.len() - i,
    {
        if vars[i].same(v) {
            proof {
                let w = choose|k: int| 0 <= k < vs.len() && vs[k] == v@ && (forall|j: int| 0 <= j < k ==> vs[j] != v@);
                assert(0 <= i < vs.len() && vs[i as int] == v@ && (forall|j: int| 0 <= j < i ==> vs[j] != v@));
                if w < i {
                } else if w > i {
                    assert(vs[i as int] != v@);
                }
            }
            return Some(i);
        }
        i = i + 1;
    }
    None
}

pub trait InFlight: Sized + View {
    /// The view of a term after the transform.
    spec fn transformed(v: Self::V, t: STransform) -> Self::V;

    /// The transforms a term `v` of this kind can undergo.
    spec fn accepts(v: Self::V, t: STransform) -> bool;

    /// Rewrites every place mentioned by `self`.
    fn with_places_transformed(&self, transform: Transform<'_>) -> (r: Self)
        requires
            Self::accepts(self@, transform@),
        ensures
            r@ == Self::transformed(self@, transform@),
    ;

    /// Marks `place` as moved into the in-flight value.
    fn with_place_in_flight(&self, place: &Place) -> (r: Self)
        requires
            Self::accepts(self@, STransform::Give(place@)),
        ensures
            r@ == Self::transformed(self@, STransform::Give(place@)),
    {
        self.with_places_transformed(Transform::Give(place))
    }

    /// Stores the in-flight value into `place`.
    fn with_in_flight_stored_to(&self, place: &Place) -> (r: Self)
        requires
            Self::accepts(self@, put_one(SVar::InFlight, place@)),
        ensures
            r@ == Self::transformed(self@, put_one(SVar::InFlight, place@)),
    {
        self.with_var_stored_to(&Var::InFlight, place)
    }

    /// Stores `self` (the receiver variable) into `place`.
    fn with_this_stored_to(&self, place: &Place) -> (r: Self)
        requires
            Self::accepts(self@, put_one(SVar::This, place@)),
        ensures
            r@ == Self::transformed(self@, put_one(SVar::This, place@)),
    {
        self.with_var_stored_to(&Var::This, place)
    }

    /// Stores the variable `input` into `place`.
    fn with_var_stored_to(&self, input: &Var, place: &Place) -> (r: Self)
        requires
            Self::accepts(self@, put_one(input@, place@)),
        ensures
            r@ == Self::transformed(self@, put_one(input@, place@)),
    {
        let inputs = vec![input.copy()];
        let places = vec![place.copy()];
        let t = Transform::Put(inputs.as_slice(), places.as_slice());
        assert(t@ == put_one(input@, place@)) by {
            assert(inputs@.map_values(|v: Var| v@) =~= seq![input@]);
            assert(places@.map_values(|p: Place| p@) =~= seq![place@]);
        }
        self.with_places_transformed(t)
    }

    /// Stores each variable `inputs[i]` into `places[i]`.
    fn with_vars_stored_to(&self, inputs: &Vec<Var>, places: &Vec<Place>) -> (r: Self)
        requires
            Self::accepts(self@, put_all(inputs@, places@)),
        ensures
            r@ == Self::transformed(self@, put_all(inputs@, places@)),
    {
        self.with_places_transformed(Transform::Put(inputs.as_slice(), places.as_slice()))
    }
}

/// Storing the single variable `v` into `p`.
pub open spec fn put_one(v: SVar, p: SPlace) -> STransform {
    STransform::Put(seq![v], seq![p])
}

/// Storing each of `vars` into the corresponding place of `places`.
pub open spec fn put_all(vars: Seq<Var>, places: Seq<Place>) -> STransform {
    STransform::Put(vars.map_values(|v: Var| v@), places.map_values(|p: Place| p@))
}

impl InFlight for Place {
    open spec fn transformed(v: SPlace, t: STransform) -> SPlace {
        transform_place(v, t)
    }

    open spec fn accepts(v: Self::V, t: STransform) -> bool {
        transform_wf(t) || place_storable(v, t)
    }

    fn with_places_transformed(&self, transform: Transform<'_>) -> (r: Place) {
        transform_place_exec(self, transform)
    }
}

/// The place `p` after the transform.
pub fn transform_place_exec(p: &Place, transform: Transform<'_>) -> (r: Place)
    requires
        transform_wf(transform@) || place_storable(p@, transform@),
    ensures
        r@ == transform_place(p@, transform@),
{
    match transform {
        Transform::Give(place) => {
            if place.is_prefix_of(p) {
                let mut projections: Vec<Projection> = Vec::new();
                let start = place.projections.len();
                let mut i: usize = start;
                while i < p.projections.len()
                    invariant
                        start == place@.projections.len(),
                        start <= i <= p.projections@.len(),
                        projections@.len() == i - start,
                        forall|j: int| 0 <= j < i - start ==> #[trigger] projections@[j]@ == p.projections@[j + start]@,
                    decreases p.projections.len() - i,
                {
                    projections.push(p.projections[i].copy());
                    i = i + 1;
                }
                let r = Place { var: Var::InFlight, projections };
                assert(r@.projections =~= p@.projections.subrange(start as int, p@.projections.len() as int));
                r
            } else {
                p.copy()
            }
        },
        Transform::Put(vars, places) => {
            match find_var(vars, &p.var) {
                Some(index) => {
                    let place = &places[index];
                    let mut r = place.copy();
                    let mut i: usize = 0;
                    while i < p.projections.len()
                        invariant
                            i <= p.projections@.len(),
                            r@.var == place@.var,
                            r@.projections =~= place@.projections + p@.projections.subrange(0, i as int),
                        decreases p.projections.len() - i,
                    {
                        let ghost before = r@.projections;
                        r.projections.push(p.projections[i].copy());
                        assert(r@.projections =~= before.push(p@.projections[i as int]));
                        assert(p@.projections.subrange(0, i + 1) =~= p@.projections.subrange(0, i as int).push(p@.projections[i as int]));
                        i = i + 1;
                    }
                    assert(p@.projections.subrange(0, p@.projections.len() as int) =~= p@.projections);
                    r
                },
                None => p.copy(),
            }
        },
    }
}


// ---------------------------------------------------------------------------
// Sets of places
// ---------------------------------------------------------------------------

pub open spec fn transform_place_set(s: Set<SPlace>, t: STransform) -> Set<SPlace> {
    s.map(|p: SPlace| transform_place(p, t))
}

proof fn lemma_place_set_map(ps: Seq<Place>, rs: Seq<Place>, t: STransform)
    requires
        rs.len() == ps.len(),
        forall|i: int| 0 <= i < ps.len() ==> #[trigger] rs[i]@ == transform_place(ps[i]@, t),
    ensures
        place_set(rs) == transform_place_set(place_set(ps), t),
{
    let a = place_set(rs);
    let b = transform_place_set(place_set(ps), t);
    let rv = rs.map_values(|p: Place| p@);
    let pv = ps.map_values(|p: Place| p@);
    assert forall|x: SPlace| a.contains(x) implies b.contains(x) by {
        assert(rv.contains(x));
        let i = choose|i: int| 0 <= i < rv.len() && rv[i] == x;
        assert(pv[i] == ps[i]@);
        assert(pv.contains(ps[i]@));
        assert(place_set(ps).contains(ps[i]@));
    }
    assert forall|x: SPlace| b.contains(x) implies a.contains(x) by {
        let y = choose|y: SPlace| place_set(ps).contains(y) && transform_place(y, t) == x;
        assert(pv.contains(y));
        let i = choose|i: int| 0 <= i < pv.len() && pv[i] == y;
        assert(rv[i] == x);
        assert(rv.contains(x));
    }
    assert(a =~= b);
}

/// Transforms each place of a set.
pub fn transform_places(ps: &Vec<Place>, transform: Transform<'_>) -> (r: Vec<Place>)
    requires
        transform_wf(transform@) || places_storable(place_set(ps@), transform@),
    ensures
        r@.len() == ps@.len(),
        forall|i: int| 0 <= i < ps@.len() ==> #[trigger] r@[i]@ == transform_place(ps@[i]@, transform@),
        place_set(r@) == transform_place_set(place_set(ps@), transform@),
{
    let mut r: Vec<Place> = Vec::new();
    let mut i: usize = 0;
    while i < ps.len()
        invariant
            transform_wf(transform@) || places_storable(place_set(ps@), transform@),
            i <= ps@.len(),
            r@.len() == i,
            forall|j: int| 0 <= j < i ==> #[trigger] r@[j]@ == transform_place(ps@[j]@, transform@),
        decreases ps.len() - i,
    {
        proof {
            lemma_place_set_contains(ps@, ps@[i as int]@);
        }
        r.push(transform_place_exec(&ps[i], transform));
        i = i + 1;
    }
    proof {
        lemma_place_set_map(ps@, r@, transform@);
    }
    r
}

// ---------------------------------------------------------------------------
// Permissions, types, parameters, predicates
// ---------------------------------------------------------------------------

pub open spec fn transform_perm(p: SPerm, t: STransform) -> SPerm
    decreases p,
{
    match p {
        SPerm::Given => SPerm::Given,
        SPerm::Shared => SPerm::Shared,
        SPerm::Mv(s) => SPerm::Mv(transform_place_set(s, t)),
        SPerm::Rf(s) => SPerm::Rf(transform_place_set(s, t)),
        SPerm::Mt(s) => SPerm::Mt(transform_place_set(s, t)),
        SPerm::Var(v) => SPerm::Var(v),
        SPerm::Apply(l, r) => SPerm::Apply(
            Box::new(transform_perm(*l, t)),
            Box::new(transform_perm(*r, t)),
        ),
        SPerm::Or(ps) => SPerm::Or(transform_perms(ps, t)),
    }
}

pub open spec fn transform_perms(s: Seq<SPerm>, t: STransform) -> Seq<SPerm>
    decreases s,
{
    if s.len() == 0 {
        Seq::empty()
    } else {
        transform_perms(s.subrange(0, s.len() - 1), t).push(transform_perm(s[s.len() - 1], t))
    }
}

pub proof fn lemma_transform_perms(s: Seq<SPerm>, t: STransform)
    ensures
        transform_perms(s, t).len() == s.len(),
        forall|i: int| 0 <= i < s.len() ==> #[trigger] transform_perms(s, t)[i] == transform_perm(s[i], t),
    decreases s.len(),
{
    if s.len() > 0 {
        lemma_transform_perms(s.subrange(0, s.len() - 1), t);
    }
}

pub open spec fn transform_ty(ty: STy, t: STransform) -> STy
    decreases ty,
{
    match ty {
        STy::NamedTy(n) => STy::NamedTy(
            SNamedTy { name: n.name, parameters: transform_parameters(n.parameters, t) },
        ),
        STy::Var(v) => STy::Var(v),
        STy::ApplyPerm(p, inner) => STy::ApplyPerm(
            transform_perm(p, t),
            Box::new(transform_ty(*inner, t)),
        ),
    }
}

pub open spec fn transform_parameter(p: SParameter, t: STransform) -> SParameter
    decreases p,
{
    match p {
        SParameter::Ty(ty) => SParameter::Ty(transform_ty(ty, t)),
        SParameter::Perm(perm) => SParameter::Perm(transform_perm(perm, t)),
    }
}

pub open spec fn transform_parameters(s: Seq<SParameter>, t: STransform) -> Seq<SParameter>
    decreases s,
{
    if s.len() == 0 {
        Seq::empty()
    } else {
        transform_parameters(s.subrange(0, s.len() - 1), t).push(
            transform_parameter(s[s.len() - 1], t),
        )
    }
}

pub proof fn lemma_transform_parameters(s: Seq<SParameter>, t: STransform)
    ensures
        transform_parameters(s, t).len() == s.len(),
        forall|i: int| 0 <= i < s.len() ==> #[trigger] transform_parameters(s, t)[i] == transform_parameter(s[i], t),
    decreases s.len(),
{
    if s.len() > 0 {
        lemma_transform_parameters(s.subrange(0, s.len() - 1), t);
    }
}

pub open spec fn transform_predicate(p: SPredicate, t: STransform) -> SPredicate {
    match p {
        SPredicate::Parameter(k, x) => SPredicate::Parameter(k, transform_parameter(x, t)),
        SPredicate::Variance(k, x) => SPredicate::Variance(k, transform_parameter(x, t)),
    }
}

/// Every place named in `p` can be rewritten by `t`.
pub open spec fn perm_storable(p: SPerm, t: STransform) -> bool
    decreases p,
{
    match p {
        SPerm::Mv(s) => places_storable(s, t),
        SPerm::Rf(s) => places_storable(s, t),
        SPerm::Mt(s) => places_storable(s, t),
        SPerm::Apply(l, r) => perm_storable(*l, t) && perm_storable(*r, t),
        SPerm::Or(ps) => perms_storable(ps, t),
        _ => true,
    }
}

pub open spec fn perms_storable(s: Seq<SPerm>, t: STransform) -> bool
    decreases s,
{
    if s.len() == 0 {
        true
    } else {
        perms_storable(s.subrange(0, s.len() - 1), t) && perm_storable(s[s.len() - 1], t)
    }
}

pub proof fn lemma_perms_storable(s: Seq<SPerm>, t: STransform)
    ensures
        perms_storable(s, t) <==> forall|i: int| 0 <= i < s.len() ==> perm_storable(#[trigger] s[i], t),
    decreases s.len(),
{
    if s.len() > 0 {
        let d = s.subrange(0, s.len() - 1);
        lemma_perms_storable(d, t);
        assert forall|i: int| 0 <= i < d.len() implies d[i] == s[i] by {}
        if forall|i: int| 0 <= i < s.len() ==> perm_storable(#[trigger] s[i], t) {
            assert forall|i: int| 0 <= i < d.len() implies perm_storable(#[trigger] d[i], t) by {
                assert(d[i] == s[i]);
            }
        }
    }
}

/// Every place named in `ty` can be rewritten by `t`.
pub open spec fn ty_storable(ty: STy, t: STransform) -> bool
    decreases ty,
{
    match ty {
        STy::NamedTy(n) => parameters_storable(n.parameters, t),
        STy::Var(_) => true,
        STy::ApplyPerm(p, inner) => perm_storable(p, t) && ty_storable(*inner, t),
    }
}

pub open spec fn parameter_storable(p: SParameter, t: STransform) -> bool
    decreases p,
{
    match p {
        SParameter::Ty(ty) => ty_storable(ty, t),
        SParameter::Perm(perm) => perm_storable(perm, t),
    }
}

pub open spec fn parameters_storable(s: Seq<SParameter>, t: STransform) -> bool
    decreases s,
{
    if s.len() == 0 {
        true
    } else {
        parameters_storable(s.subrange(0, s.len() - 1), t) && parameter_storable(s[s.len() - 1], t)
    }
}

pub proof fn lemma_parameters_storable(s: Seq<SParameter>, t: STransform)
    ensures
        parameters_storable(s, t) <==> forall|i: int| 0 <= i < s.len() ==> parameter_storable(#[trigger] s[i], t),
    decreases s.len(),
{
    if s.len() > 0 {
        let d = s.subrange(0, s.len() - 1);
        lemma_parameters_storable(d, t);
        assert forall|i: int| 0 <= i < d.len() implies d[i] == s[i] by {}
        if forall|i: int| 0 <= i < s.len() ==> parameter_storable(#[trigger] s[i], t) {
            assert forall|i: int| 0 <= i < d.len() implies parameter_storable(#[trigger] d[i], t) by {
                assert(d[i] == s[i]);
            }
        }
    }
}

pub open spec fn predicate_storable(p: SPredicate, t: STransform) -> bool {
    match p {
        SPredicate::Parameter(_, x) => parameter_storable(x, t),
        SPredicate::Variance(_, x) => parameter_storable(x, t),
    }
}

fn transform_perm_exec(p: &Perm, t: Transform<'_>) -> (r: Perm)
    requires
        transform_wf(t@) || perm_storable(p@, t@),
    ensures
        r@ == transform_perm(p@, t@),
    decreases p,
{
    match p {
        Perm::Given => Perm::Given,
        Perm::Shared => Perm::Shared,
        Perm::Mv(ps) => Perm::Mv(transform_places(ps, t)),
        Perm::Rf(ps) => Perm::Rf(transform_places(ps, t)),
        Perm::Mt(ps) => Perm::Mt(transform_places(ps, t)),
        Perm::Var(v) => Perm::Var(*v),
        Perm::Apply(l, r) => Perm::Apply(
            Box::new(transform_perm_exec(l, t)),
            Box::new(transform_perm_exec(r, t)),
        ),
        Perm::Or(ps) => {
            let mut out: Vec<Perm> = Vec::new();
            let mut i: usize = 0;
            while i < ps.len()
                invariant
                    *p == Perm::Or(*ps),
                    transform_wf(t@) || perm_storable(p@, t@),
                    i <= ps@.len(),
                    out@.len() == i,
                    forall|j: int| 0 <= j < i ==> #[trigger] out@[j]@ == transform_perm(ps@[j]@, t@),
                decreases ps.len() - i,
            {
                proof {
                    assert(decreases_to!(*p => (*p)->Or_0));
                    lemma_perms_view(ps@);
                    lemma_perms_storable(perms_view(ps@), t@);
                    assert(perms_view(ps@)[i as int] == ps@[i as int]@);
                }
                out.push(transform_perm_exec(&ps[i], t));
                i = i + 1;
            }
            proof {
                lemma_perms_view(out@);
                lemma_perms_view(ps@);
                lemma_transform_perms(perms_view(ps@), t@);
                assert(perms_view(out@) =~= transform_perms(perms_view(ps@), t@));
            }
            Perm::Or(out)
        },
    }
}

pub fn transform_ty_exec(ty: &Ty, t: Transform<'_>) -> (r: Ty)
    requires
        transform_wf(t@) || ty_storable(ty@, t@),
    ensures
        r@ == transform_ty(ty@, t@),
    decreases ty,
{
    match ty {
        Ty::NamedTy(n) => {
            proof {
                assert(decreases_to!(*ty => (*ty)->NamedTy_0));
            }
            let parameters = transform_parameters_exec(&n.parameters, t);
            Ty::NamedTy(NamedTy { name: n.name.copy(), parameters })
        },
        Ty::Var(v) => Ty::Var(*v),
        Ty::ApplyPerm(p, inner) => Ty::ApplyPerm(
            transform_perm_exec(p, t),
            Box::new(transform_ty_exec(inner, t)),
        ),
    }
}

fn transform_parameter_exec(p: &Parameter, t: Transform<'_>) -> (r: Parameter)
    requires
        transform_wf(t@) || parameter_storable(p@, t@),
    ensures
        r@ == transform_parameter(p@, t@),
    decreases p,
{
    match p {
        Parameter::Ty(ty) => Parameter::Ty(transform_ty_exec(ty, t)),
        Parameter::Perm(perm) => Parameter::Perm(transform_perm_exec(perm, t)),
    }
}

fn transform_parameters_exec(ps: &Vec<Parameter>, t: Transform<'_>) -> (r: Vec<Parameter>)
    requires
        transform_wf(t@) || parameters_storable(parameters_view(ps@), t@),
    ensures
        parameters_view(r@) == transform_parameters(parameters_view(ps@), t@),
    decreases ps,
{
    let mut out: Vec<Parameter> = Vec::new();
    let mut i: usize = 0;
    while i < ps.len()
        invariant
            transform_wf(t@) || parameters_storable(parameters_view(ps@), t@),
            i <= ps@.len(),
            out@.len() == i,
            forall|j: int| 0 <= j < i ==> #[trigger] out@[j]@ == transform_parameter(ps@[j]@, t@),
        decreases ps.len() - i,
    {
        proof {
            assert(decreases_to!(ps => ps@));
            lemma_parameters_view(ps@);
            lemma_parameters_storable(parameters_view(ps@), t@);
            assert(parameters_view(ps@)[i as int] == ps@[i as int]@);
        }
        out.push(transform_parameter_exec(&ps[i], t));
        i = i + 1;
    }
    proof {
        lemma_parameters_view(out@);
        lemma_parameters_view(ps@);
        lemma_transform_parameters(parameters_view(ps@), t@);
        assert(parameters_view(out@) =~= transform_parameters(parameters_view(ps@), t@));
    }
    out
}

impl InFlight for Perm {
    open spec fn transformed(v: SPerm, t: STransform) -> SPerm {
        transform_perm(v, t)
    }

    open spec fn accepts(v: Self::V, t: STransform) -> bool {
        transform_wf(t) || perm_storable(v, t)
    }

    fn with_places_transformed(&self, transform: Transform<'_>) -> (r: Perm) {
        transform_perm_exec(self, transform)
    }
}

impl InFlight for Ty {
    open spec fn transformed(v: STy, t: STransform) -> STy {
        transform_ty(v, t)
    }

    open spec fn accepts(v: Self::V, t: STransform) -> bool {
        transform_wf(t) || ty_storable(v, t)
    }

    fn with_places_transformed(&self, transform: Transform<'_>) -> (r: Ty) {
        transform_ty_exec(self, transform)
    }
}

impl InFlight for Parameter {
    open spec fn transformed(v: SParameter, t: STransform) -> SParameter {
        transform_parameter(v, t)
    }

    open spec fn accepts(v: Self::V, t: STransform) -> bool {
        transform_wf(t) || parameter_storable(v, t)
    }

    fn with_places_transformed(&self, transform: Transform<'_>) -> (r: Parameter) {
        transform_parameter_exec(self, transform)
    }
}

impl InFlight for NamedTy {
    open spec fn transformed(v: SNamedTy, t: STransform) -> SNamedTy {
        SNamedTy { name: v.name, parameters: transform_parameters(v.parameters, t) }
    }

    open spec fn accepts(v: Self::V, t: STransform) -> bool {
        transform_wf(t) || parameters_storable(v.parameters, t)
    }

    fn with_places_transformed(&self, transform: Transform<'_>) -> (r: NamedTy) {
        NamedTy {
            name: self.name.copy(),
            parameters: transform_parameters_exec(&self.parameters, transform),
        }
    }
}

/// The predicate `p` after the transform.
pub fn transform_predicate_exec(p: &Predicate, t: Transform<'_>) -> (r: Predicate)
    requires
        transform_wf(t@) || predicate_storable(p@, t@),
    ensures
        r@ == transform_predicate(p@, t@),
{
    match p {
        Predicate::Parameter(k, x) => Predicate::Parameter(*k, transform_parameter_exec(x, t)),
        Predicate::Variance(k, x) => Predicate::Variance(*k, transform_parameter_exec(x, t)),
    }
}

impl InFlight for Predicate {
    open spec fn transformed(v: SPredicate, t: STransform) -> SPredicate {
        transform_predicate(v, t)
    }

    open spec fn accepts(v: Self::V, t: STransform) -> bool {
        transform_wf(t) || predicate_storable(v, t)
    }

    fn with_places_transformed(&self, transform: Transform<'_>) -> (r: Predicate) {
        transform_predicate_exec(self, transform)
    }
}

impl InFlight for Var {
    /// Variables themselves are never rewritten.
    open spec fn transformed(v: SVar, t: STransform) -> SVar {
        v
    }

    open spec fn accepts(v: Self::V, t: STransform) -> bool {
        true
    }

    fn with_places_transformed(&self, transform: Transform<'_>) -> (r: Var) {
        self.copy()
    }
}


// ---------------------------------------------------------------------------
// Declarations
// ---------------------------------------------------------------------------

/// The name `id` after the transform: a name stored into another named
/// variable takes that variable's name.
pub open spec fn rename_id(id: Seq<char>, t: STransform) -> Seq<char> {
    match t {
        STransform::Give(_) => id,
        STransform::Put(vars, places) => {
            let i = position_of(vars, SVar::Id(id));
            if i >= 0 {
                places[i].var->Id_0
            } else {
                id
            }
        },
    }
}

/// Renames a declared name according to the transform.
fn rename_value_id(value_id: &ValueId, transform: Transform<'_>) -> (r: ValueId)
    requires
        names_ok(transform@) || name_storable(value_id@, transform@),
    ensures
        r@ == rename_id(value_id@, transform@),
{
    match transform {
        Transform::Give(_) => value_id.copy(),
        Transform::Put(vars, places) => {
            let var = Var::Id(value_id.copy());
            match find_var(vars, &var) {
                Some(index) => {
                    proof {
                        let vs = vars@.map_values(|x: Var| x@);
                        assert(vs[index as int] == var@);
                    }
                    match &places[index].var {
                        Var::Id(new_name) => new_name.copy(),
                        _ => value_id.copy(),
                    }
                },
                None => value_id.copy(),
            }
        },
    }
}

pub open spec fn names_ok(t: STransform) -> bool {
    transform_wf(t) && transform_renames(t)
}

impl InFlight for LocalVariableDecl {
    open spec fn transformed(v: SLocalVariableDecl, t: STransform) -> SLocalVariableDecl {
        SLocalVariableDecl { name: rename_id(v.name, t), ty: transform_ty(v.ty, t) }
    }

    open spec fn accepts(v: Self::V, t: STransform) -> bool {
        names_ok(t) || (name_storable(v.name, t) && ty_storable(v.ty, t))
    }

    fn with_places_transformed(&self, transform: Transform<'_>) -> (r: LocalVariableDecl) {
        LocalVariableDecl {
            name: rename_value_id(&self.name, transform),
            ty: transform_ty_exec(&self.ty, transform),
        }
    }
}

impl InFlight for FieldDecl {
    open spec fn transformed(v: SFieldDecl, t: STransform) -> SFieldDecl {
        SFieldDecl { atomic: v.atomic, name: v.name, ty: transform_ty(v.ty, t) }
    }

    open spec fn accepts(v: Self::V, t: STransform) -> bool {
        transform_wf(t) || ty_storable(v.ty, t)
    }

    fn with_places_transformed(&self, transform: Transform<'_>) -> (r: FieldDecl) {
        FieldDecl {
            atomic: self.atomic,
            name: self.name.copy(),
            ty: transform_ty_exec(&self.ty, transform),
        }
    }
}

impl InFlight for ThisDecl {
    open spec fn transformed(v: SPerm, t: STransform) -> SPerm {
        transform_perm(v, t)
    }

    open spec fn accepts(v: Self::V, t: STransform) -> bool {
        transform_wf(t) || perm_storable(v, t)
    }

    fn with_places_transformed(&self, transform: Transform<'_>) -> (r: ThisDecl) {
        ThisDecl { perm: transform_perm_exec(&self.perm, transform) }
    }
}

impl InFlight for Ascription {
    open spec fn transformed(v: SAscription, t: STransform) -> SAscription {
        transform_ascription(v, t)
    }

    open spec fn accepts(v: Self::V, t: STransform) -> bool {
        transform_wf(t) || ascription_storable(v, t)
    }

    fn with_places_transformed(&self, transform: Transform<'_>) -> (r: Ascription) {
        match self {
            Ascription::NoTy => Ascription::NoTy,
            Ascription::Ty(ty) => Ascription::Ty(transform_ty_exec(ty, transform)),
        }
    }
}

impl InFlight for PlaceExpr {
    open spec fn transformed(v: SPlaceExpr, t: STransform) -> SPlaceExpr {
        SPlaceExpr { place: transform_place(v.place, t), access: v.access }
    }

    open spec fn accepts(v: Self::V, t: STransform) -> bool {
        transform_wf(t) || place_storable(v.place, t)
    }

    fn with_places_transformed(&self, transform: Transform<'_>) -> (r: PlaceExpr) {
        PlaceExpr { place: self.place.with_places_transformed(transform), access: self.access }
    }
}

// ---------------------------------------------------------------------------
// Expressions, statements and blocks
// ---------------------------------------------------------------------------

pub open spec fn transform_ascription(a: SAscription, t: STransform) -> SAscription {
    match a {
        SAscription::NoTy => SAscription::NoTy,
        SAscription::Ty(ty) => SAscription::Ty(transform_ty(ty, t)),
    }
}

pub open spec fn transform_expr(e: SExpr, t: STransform) -> SExpr
    decreases e,
{
    match e {
        SExpr::Block(b) => SExpr::Block(transform_block(b, t)),
        SExpr::Integer(n) => SExpr::Integer(n),
        SExpr::True => SExpr::True,
        SExpr::False => SExpr::False,
        SExpr::BinaryOp(l, op, r) => SExpr::BinaryOp(
            Box::new(transform_expr(*l, t)),
            op,
            Box::new(transform_expr(*r, t)),
        ),
        SExpr::Place(pe) => SExpr::Place(
            SPlaceExpr { place: transform_place(pe.place, t), access: pe.access },
        ),
        SExpr::Share(x) => SExpr::Share(Box::new(transform_expr(*x, t))),
        SExpr::Tuple(es) => SExpr::Tuple(transform_exprs(es, t)),
        SExpr::Call(r, m, ps, args) => SExpr::Call(
            Box::new(transform_expr(*r, t)),
            m,
            transform_parameters(ps, t),
            transform_exprs(args, t),
        ),
        SExpr::New(c, ps, args) => SExpr::New(
            c,
            transform_parameters(ps, t),
            transform_exprs(args, t),
        ),
        SExpr::Clear(v) => SExpr::Clear(rename_id(v, t)),
        SExpr::If(c, a, b) => SExpr::If(
            Box::new(transform_expr(*c, t)),
            Box::new(transform_expr(*a, t)),
            Box::new(transform_expr(*b, t)),
        ),
        SExpr::SizeOf(ps) => SExpr::SizeOf(transform_parameters(ps, t)),
        SExpr::ArrayNew(ps, a) => SExpr::ArrayNew(
            transform_parameters(ps, t),
            Box::new(transform_expr(*a, t)),
        ),
        SExpr::ArrayCapacity(ps, a) => SExpr::ArrayCapacity(
            transform_parameters(ps, t),
            Box::new(transform_expr(*a, t)),
        ),
        SExpr::ArrayGive(ps, a, b) => SExpr::ArrayGive(
            transform_parameters(ps, t),
            Box::new(transform_expr(*a, t)),
            Box::new(transform_expr(*b, t)),
        ),
        SExpr::ArrayDrop(ps, a, b, c) => SExpr::ArrayDrop(
            transform_parameters(ps, t),
            Box::new(transform_expr(*a, t)),
            Box::new(transform_expr(*b, t)),
            Box::new(transform_expr(*c, t)),
        ),
        SExpr::ArrayWrite(ps, a, b, c) => SExpr::ArrayWrite(
            transform_parameters(ps, t),
            Box::new(transform_expr(*a, t)),
            Box::new(transform_expr(*b, t)),
            Box::new(transform_expr(*c, t)),
        ),
        SExpr::IsLastRef(ps, a) => SExpr::IsLastRef(
            transform_parameters(ps, t),
            Box::new(transform_expr(*a, t)),
        ),
        SExpr::Panic => SExpr::Panic,
    }
}

pub open spec fn transform_exprs(s: Seq<SExpr>, t: STransform) -> Seq<SExpr>
    decreases s,
{
    if s.len() == 0 {
        Seq::empty()
    } else {
        transform_exprs(s.subrange(0, s.len() - 1), t).push(transform_expr(s[s.len() - 1], t))
    }
}

pub open spec fn transform_block(b: SBlock, t: STransform) -> SBlock
    decreases b,
{
    SBlock { statements: transform_statements(b.statements, t) }
}

pub open spec fn transform_statement(st: SStatement, t: STransform) -> SStatement
    decreases st,
{
    match st {
        SStatement::Expr(e) => SStatement::Expr(transform_expr(e, t)),
        SStatement::Let(v, a, e) => SStatement::Let(
            rename_id(v, t),
            transform_ascription(a, t),
            Box::new(transform_expr(*e, t)),
        ),
        SStatement::Reassign(p, e) => SStatement::Reassign(
            transform_place(p, t),
            transform_expr(e, t),
        ),
        SStatement::Loop(b) => SStatement::Loop(transform_block(b, t)),
        SStatement::Break => SStatement::Break,
        SStatement::Return(e) => SStatement::Return(transform_expr(e, t)),
        SStatement::Print(e) => SStatement::Print(transform_expr(e, t)),
    }
}

pub open spec fn transform_statements(s: Seq<SStatement>, t: STransform) -> Seq<SStatement>
    decreases s,
{
    if s.len() == 0 {
        Seq::empty()
    } else {
        transform_statements(s.subrange(0, s.len() - 1), t).push(
            transform_statement(s[s.len() - 1], t),
        )
    }
}

pub proof fn lemma_transform_exprs(s: Seq<SExpr>, t: STransform)
    ensures
        transform_exprs(s, t).len() == s.len(),
        forall|i: int| 0 <= i < s.len() ==> #[trigger] transform_exprs(s, t)[i] == transform_expr(s[i], t),
    decreases s.len(),
{
    if s.len() > 0 {
        lemma_transform_exprs(s.subrange(0, s.len() - 1), t);
    }
}

pub proof fn lemma_transform_statements(s: Seq<SStatement>, t: STransform)
    ensures
        transform_statements(s, t).len() == s.len(),
        forall|i: int| 0 <= i < s.len() ==> #[trigger] transform_statements(s, t)[i] == transform_statement(s[i], t),
    decreases s.len(),
{
    if s.len() > 0 {
        lemma_transform_statements(s.subrange(0, s.len() - 1), t);
    }
}

pub open spec fn ascription_storable(a: SAscription, t: STransform) -> bool {
    match a {
        SAscription::NoTy => true,
        SAscription::Ty(ty) => ty_storable(ty, t),
    }
}

/// Every place and declared name in `e` can be rewritten by `t`.
pub open spec fn expr_storable(e: SExpr, t: STransform) -> bool
    decreases e,
{
    match e {
        SExpr::Block(b) => block_storable(b, t),
        SExpr::BinaryOp(l, _, r) => expr_storable(*l, t) && expr_storable(*r, t),
        SExpr::Place(pe) => place_storable(pe.place, t),
        SExpr::Share(x) => expr_storable(*x, t),
        SExpr::Tuple(es) => exprs_storable(es, t),
        SExpr::Call(r, _, ps, args) => expr_storable(*r, t) && parameters_storable(ps, t) && exprs_storable(args, t),
        SExpr::New(_, ps, args) => parameters_storable(ps, t) && exprs_storable(args, t),
        SExpr::Clear(v) => name_storable(v, t),
        SExpr::If(c, a, b) => expr_storable(*c, t) && expr_storable(*a, t) && expr_storable(*b, t),
        SExpr::SizeOf(ps) => parameters_storable(ps, t),
        SExpr::ArrayNew(ps, a) => parameters_storable(ps, t) && expr_storable(*a, t),
        SExpr::ArrayCapacity(ps, a) => parameters_storable(ps, t) && expr_storable(*a, t),
        SExpr::ArrayGive(ps, a, b) => parameters_storable(ps, t) && expr_storable(*a, t) && expr_storable(*b, t),
        SExpr::ArrayDrop(ps, a, b, c) => parameters_storable(ps, t) && expr_storable(*a, t) && expr_storable(*b, t)
            && expr_storable(*c, t),
        SExpr::ArrayWrite(ps, a, b, c) => parameters_storable(ps, t) && expr_storable(*a, t) && expr_storable(*b, t)
            && expr_storable(*c, t),
        SExpr::IsLastRef(ps, a) => parameters_storable(ps, t) && expr_storable(*a, t),
        _ => true,
    }
}

pub open spec fn exprs_storable(s: Seq<SExpr>, t: STransform) -> bool
    decreases s,
{
    if s.len() == 0 {
        true
    } else {
        exprs_storable(s.subrange(0, s.len() - 1), t) && expr_storable(s[s.len() - 1], t)
    }
}

pub open spec fn block_storable(b: SBlock, t: STransform) -> bool
    decreases b,
{
    statements_storable(b.statements, t)
}

pub open spec fn statement_storable(st: SStatement, t: STransform) -> bool
    decreases st,
{
    match st {
        SStatement::Expr(e) => expr_storable(e, t),
        SStatement::Let(v, a, e) => name_storable(v, t) && ascription_storable(a, t) && expr_storable(*e, t),
        SStatement::Reassign(p, e) => place_storable(p, t) && expr_storable(e, t),
        SStatement::Loop(b) => block_storable(b, t),
        SStatement::Break => true,
        SStatement::Return(e) => expr_storable(e, t),
        SStatement::Print(e) => expr_storable(e, t),
    }
}

pub open spec fn statements_storable(s: Seq<SStatement>, t: STransform) -> bool
    decreases s,
{
    if s.len() == 0 {
        true
    } else {
        statements_storable(s.subrange(0, s.len() - 1), t) && statement_storable(s[s.len() - 1], t)
    }
}

pub proof fn lemma_exprs_storable(s: Seq<SExpr>, t: STransform)
    ensures
        exprs_storable(s, t) <==> forall|i: int| 0 <= i < s.len() ==> expr_storable(#[trigger] s[i], t),
    decreases s.len(),
{
    if s.len() > 0 {
        let d = s.subrange(0, s.len() - 1);
        lemma_exprs_storable(d, t);
        assert forall|i: int| 0 <= i < d.len() implies d[i] == s[i] by {}
        if forall|i: int| 0 <= i < s.len() ==> expr_storable(#[trigger] s[i], t) {
            assert forall|i: int| 0 <= i < d.len() implies expr_storable(#[trigger] d[i], t) by {
                assert(d[i] == s[i]);
            }
        }
    }
}

pub proof fn lemma_statements_storable(s: Seq<SStatement>, t: STransform)
    ensures
        statements_storable(s, t) <==> forall|i: int| 0 <= i < s.len() ==> statement_storable(#[trigger] s[i], t),
    decreases s.len(),
{
    if s.len() > 0 {
        let d = s.subrange(0, s.len() - 1);
        lemma_statements_storable(d, t);
        assert forall|i: int| 0 <= i < d.len() implies d[i] == s[i] by {}
        if forall|i: int| 0 <= i < s.len() ==> statement_storable(#[trigger] s[i], t) {
            assert forall|i: int| 0 <= i < d.len() implies statement_storable(#[trigger] d[i], t) by {
                assert(d[i] == s[i]);
            }
        }
    }
}

pub open spec fn method_body_storable(b: SMethodBody, t: STransform) -> bool {
    match b {
        SMethodBody::Trusted => true,
        SMethodBody::Block(b) => block_storable(b, t),
    }
}

/// Every place and declared name in the method's signature and body can
/// be rewritten by `t`.
pub open spec fn method_data_storable(v: SMethodDeclBoundData, t: STransform) -> bool {
    &&& perm_storable(v.this, t)
    &&& forall|i: int| 0 <= i < v.inputs.len() ==> name_storable(#[trigger] v.inputs[i].name, t) && ty_storable(v.inputs[i].ty, t)
    &&& ty_storable(v.output, t)
    &&& forall|i: int| 0 <= i < v.predicates.len() ==> predicate_storable(#[trigger] v.predicates[i], t)
    &&& method_body_storable(v.body, t)
}

fn transform_expr_exec(e: &Expr, t: Transform<'_>) -> (r: Expr)
    requires
        names_ok(t@) || expr_storable(e@, t@),
    ensures
        r@ == transform_expr(e@, t@),
    decreases e,
{
    match e {
        Expr::Block(b) => {
            proof {
                assert(decreases_to!(*e => (*e)->Block_0));
            }
            Expr::Block(transform_block_exec(b, t))
        },
        Expr::Integer(n) => Expr::Integer(*n),
        Expr::True => Expr::True,
        Expr::False => Expr::False,
        Expr::BinaryOp(l, op, r) => Expr::BinaryOp(
            Box::new(transform_expr_exec(l, t)),
            *op,
            Box::new(transform_expr_exec(r, t)),
        ),
        Expr::Place(pe) => Expr::Place(pe.with_places_transformed(t)),
        Expr::Share(x) => Expr::Share(Box::new(transform_expr_exec(x, t))),
        Expr::Tuple(es) => {
            proof {
                assert(decreases_to!(*e => (*e)->Tuple_0));
            }
            Expr::Tuple(transform_exprs_exec(es, t))
        },
        Expr::Call(r, m, ps, args) => {
            proof {
                assert(decreases_to!(*e => (*e)->Call_3));
            }
            Expr::Call(
                Box::new(transform_expr_exec(r, t)),
                m.copy(),
                transform_parameters_exec(ps, t),
                transform_exprs_exec(args, t),
            )
        },
        Expr::New(c, ps, args) => {
            proof {
                assert(decreases_to!(*e => (*e)->New_2));
            }
            Expr::New(c.copy(), transform_parameters_exec(ps, t), transform_exprs_exec(args, t))
        },
        Expr::Clear(v) => Expr::Clear(rename_value_id(v, t)),
        Expr::If(c, a, b) => Expr::If(
            Box::new(transform_expr_exec(c, t)),
            Box::new(transform_expr_exec(a, t)),
            Box::new(transform_expr_exec(b, t)),
        ),
        Expr::SizeOf(ps) => Expr::SizeOf(transform_parameters_exec(ps, t)),
        Expr::ArrayNew(ps, a) => Expr::ArrayNew(
            transform_parameters_exec(ps, t),
            Box::new(transform_expr_exec(a, t)),
        ),
        Expr::ArrayCapacity(ps, a) => Expr::ArrayCapacity(
            transform_parameters_exec(ps, t),
            Box::new(transform_expr_exec(a, t)),
        ),
        Expr::ArrayGive(ps, a, b) => Expr::ArrayGive(
            transform_parameters_exec(ps, t),
            Box::new(transform_expr_exec(a, t)),
            Box::new(transform_expr_exec(b, t)),
        ),
        Expr::ArrayDrop(ps, a, b, c) => Expr::ArrayDrop(
            transform_parameters_exec(ps, t),
            Box::new(transform_expr_exec(a, t)),
            Box::new(transform_expr_exec(b, t)),
            Box::new(transform_expr_exec(c, t)),
        ),
        Expr::ArrayWrite(ps, a, b, c) => Expr::ArrayWrite(
            transform_parameters_exec(ps, t),
            Box::new(transform_expr_exec(a, t)),
            Box::new(transform_expr_exec(b, t)),
            Box::new(transform_expr_exec(c, t)),
        ),
        Expr::IsLastRef(ps, a) => Expr::IsLastRef(
            transform_parameters_exec(ps, t),
            Box::new(transform_expr_exec(a, t)),
        ),
        Expr::Panic => Expr::Panic,
    }
}

fn transform_exprs_exec(es: &Vec<Expr>, t: Transform<'_>) -> (r: Vec<Expr>)
    requires
        names_ok(t@) || exprs_storable(exprs_view(es@), t@),
    ensures
        exprs_view(r@) == transform_exprs(exprs_view(es@), t@),
    decreases es,
{
    let mut out: Vec<Expr> = Vec::new();
    let mut i: usize = 0;
    while i < es.len()
        invariant
            names_ok(t@) || exprs_storable(exprs_view(es@), t@),
            i <= es@.len(),
            out@.len() == i,
            forall|j: int| 0 <= j < i ==> #[trigger] out@[j]@ == transform_expr(es@[j]@, t@),
        decreases es.len() - i,
    {
        proof {
            assert(decreases_to!(es => es@));
            lemma_exprs_view(es@);
            lemma_exprs_storable(exprs_view(es@), t@);
            assert(exprs_view(es@)[i as int] == es@[i as int]@);
        }
        out.push(transform_expr_exec(&es[i], t));
        i = i + 1;
    }
    proof {
        lemma_exprs_view(out@);
        lemma_exprs_view(es@);
        lemma_transform_exprs(exprs_view(es@), t@);
        assert(exprs_view(out@) =~= transform_exprs(exprs_view(es@), t@));
    }
    out
}

fn transform_block_exec(b: &Block, t: Transform<'_>) -> (r: Block)
    requires
        names_ok(t@) || block_storable(b@, t@),
    ensures
        r@ == transform_block(b@, t@),
    decreases b,
{
    let statements = transform_statements_exec(&b.statements, t);
    Block { statements }
}

fn transform_statement_exec(st: &Statement, t: Transform<'_>) -> (r: Statement)
    requires
        names_ok(t@) || statement_storable(st@, t@),
    ensures
        r@ == transform_statement(st@, t@),
    decreases st,
{
    match st {
        Statement::Expr(e) => Statement::Expr(transform_expr_exec(e, t)),
        Statement::Let(v, a, e) => Statement::Let(
            rename_value_id(v, t),
            a.with_places_transformed(t),
            Box::new(transform_expr_exec(e, t)),
        ),
        Statement::Reassign(p, e) => Statement::Reassign(
            p.with_places_transformed(t),
            transform_expr_exec(e, t),
        ),
        Statement::Loop(b) => Statement::Loop(transform_block_exec(b, t)),
        Statement::Break => Statement::Break,
        Statement::Return(e) => Statement::Return(transform_expr_exec(e, t)),
        Statement::Print(e) => Statement::Print(transform_expr_exec(e, t)),
    }
}

fn transform_statements_exec(ss: &Vec<Statement>, t: Transform<'_>) -> (r: Vec<Statement>)
    requires
        names_ok(t@) || statements_storable(statements_view(ss@), t@),
    ensures
        statements_view(r@) == transform_statements(statements_view(ss@), t@),
    decreases ss,
{
    let mut out: Vec<Statement> = Vec::new();
    let mut i: usize = 0;
    while i < ss.len()
        invariant
            names_ok(t@) || statements_storable(statements_view(ss@), t@),
            i <= ss@.len(),
            out@.len() == i,
            forall|j: int| 0 <= j < i ==> #[trigger] out@[j]@ == transform_statement(ss@[j]@, t@),
        decreases ss.len() - i,
    {
        proof {
            assert(decreases_to!(ss => ss@));
            lemma_statements_view(ss@);
            lemma_statements_storable(statements_view(ss@), t@);
            assert(statements_view(ss@)[i as int] == ss@[i as int]@);
        }
        out.push(transform_statement_exec(&ss[i], t));
        i = i + 1;
    }
    proof {
        lemma_statements_view(out@);
        lemma_statements_view(ss@);
        lemma_transform_statements(statements_view(ss@), t@);
        assert(statements_view(out@) =~= transform_statements(statements_view(ss@), t@));
    }
    out
}

impl InFlight for Expr {
    open spec fn transformed(v: SExpr, t: STransform) -> SExpr {
        transform_expr(v, t)
    }

    open spec fn accepts(v: Self::V, t: STransform) -> bool {
        names_ok(t) || expr_storable(v, t)
    }

    fn with_places_transformed(&self, transform: Transform<'_>) -> (r: Expr) {
        transform_expr_exec(self, transform)
    }
}

impl InFlight for Statement {
    open spec fn transformed(v: SStatement, t: STransform) -> SStatement {
        transform_statement(v, t)
    }

    open spec fn accepts(v: Self::V, t: STransform) -> bool {
        names_ok(t) || statement_storable(v, t)
    }

    fn with_places_transformed(&self, transform: Transform<'_>) -> (r: Statement) {
        transform_statement_exec(self, transform)
    }
}

impl InFlight for Block {
    open spec fn transformed(v: SBlock, t: STransform) -> SBlock {
        transform_block(v, t)
    }

    open spec fn accepts(v: Self::V, t: STransform) -> bool {
        names_ok(t) || block_storable(v, t)
    }

    fn with_places_transformed(&self, transform: Transform<'_>) -> (r: Block) {
        transform_block_exec(self, transform)
    }
}

pub open spec fn transform_method_body(b: SMethodBody, t: STransform) -> SMethodBody {
    match b {
        SMethodBody::Trusted => SMethodBody::Trusted,
        SMethodBody::Block(b) => SMethodBody::Block(transform_block(b, t)),
    }
}

impl InFlight for MethodBody {
    open spec fn transformed(v: SMethodBody, t: STransform) -> SMethodBody {
        transform_method_body(v, t)
    }

    open spec fn accepts(v: Self::V, t: STransform) -> bool {
        names_ok(t) || method_body_storable(v, t)
    }

    fn with_places_transformed(&self, transform: Transform<'_>) -> (r: MethodBody) {
        match self {
            MethodBody::Trusted => MethodBody::Trusted,
            MethodBody::Block(b) => MethodBody::Block(transform_block_exec(b, transform)),
        }
    }
}

impl InFlight for DropBody {
    open spec fn transformed(v: SBlock, t: STransform) -> SBlock {
        transform_block(v, t)
    }

    open spec fn accepts(v: Self::V, t: STransform) -> bool {
        names_ok(t) || block_storable(v, t)
    }

    fn with_places_transformed(&self, transform: Transform<'_>) -> (r: DropBody) {
        DropBody { block: transform_block_exec(&self.block, transform) }
    }
}

impl InFlight for MethodDeclBoundData {
    open spec fn transformed(v: SMethodDeclBoundData, t: STransform) -> SMethodDeclBoundData {
        SMethodDeclBoundData {
            this: transform_perm(v.this, t),
            inputs: v.inputs.map_values(
                |d: SLocalVariableDecl|
                    SLocalVariableDecl { name: rename_id(d.name, t), ty: transform_ty(d.ty, t) },
            ),
            output: transform_ty(v.output, t),
            predicates: v.predicates.map_values(|p: SPredicate| transform_predicate(p, t)),
            body: transform_method_body(v.body, t),
        }
    }

    open spec fn accepts(v: Self::V, t: STransform) -> bool {
        names_ok(t) || method_data_storable(v, t)
    }

    fn with_places_transformed(&self, transform: Transform<'_>) -> (r: MethodDeclBoundData) {
        let mut inputs: Vec<LocalVariableDecl> = Vec::new();
        let mut i: usize = 0;
        while i < self.inputs.len()
            invariant
                names_ok(transform@) || method_data_storable(self@, transform@),
                i <= self.inputs@.len(),
                inputs@.len() == i,
                forall|j: int| 0 <= j < i ==> #[trigger] inputs@[j]@ == LocalVariableDecl::transformed(
                    self.inputs@[j]@,
                    transform@,
                ),
            decreases self.inputs.len() - i,
        {
            assert(self@.inputs[i as int] == self.inputs@[i as int]@);
            assert(method_data_storable(self@, transform@) ==> name_storable(self@.inputs[i as int].name, transform@));
            inputs.push(self.inputs[i].with_places_transformed(transform));
            i = i + 1;
        }
        let mut predicates: Vec<Predicate> = Vec::new();
        let mut i: usize = 0;
        while i < self.predicates.len()
            invariant
                names_ok(transform@) || method_data_storable(self@, transform@),
                i <= self.predicates@.len(),
                predicates@.len() == i,
                forall|j: int| 0 <= j < i ==> #[trigger] predicates@[j]@ == transform_predicate(
                    self.predicates@[j]@,
                    transform@,
                ),
            decreases self.predicates.len() - i,
        {
            assert(self@.predicates[i as int] == self.predicates@[i as int]@);
            predicates.push(self.predicates[i].with_places_transformed(transform));
            i = i + 1;
        }
        let r = MethodDeclBoundData {
            this: self.this.with_places_transformed(transform),
            inputs,
            output: self.output.with_places_transformed(transform),
            predicates,
            body: self.body.with_places_transformed(transform),
        };
        assert(r@.inputs =~= Self::transformed(self@, transform@).inputs);
        assert(r@.predicates =~= Self::transformed(self@, transform@).predicates);
        r
    }
}


// ---------------------------------------------------------------------------
// Alpha-renaming of method bodies
// ---------------------------------------------------------------------------

pub open spec fn var_views(s: Seq<Var>) -> Seq<SVar> {
    s.map_values(|v: Var| v@)
}

/// The variables declared by `let` in a block, in order of appearance,
/// including those declared inside the initializer of a `let`.
pub open spec fn let_vars_block(b: SBlock) -> Seq<SVar>
    decreases b,
{
    let_vars_statements(b.statements)
}

pub open spec fn let_vars_statements(s: Seq<SStatement>) -> Seq<SVar>
    decreases s,
{
    if s.len() == 0 {
        Seq::empty()
    } else {
        let_vars_statements(s.subrange(0, s.len() - 1)) + let_vars_statement(s[s.len() - 1])
    }
}

pub open spec fn let_vars_statement(st: SStatement) -> Seq<SVar>
    decreases st,
{
    match st {
        SStatement::Let(name, _, e) => seq![SVar::Id(name)] + let_vars_expr(*e),
        SStatement::Expr(e) => let_vars_expr(e),
        SStatement::Reassign(_, e) => let_vars_expr(e),
        SStatement::Loop(b) => let_vars_block(b),
        SStatement::Break => Seq::empty(),
        SStatement::Return(e) => let_vars_expr(e),
        SStatement::Print(e) => let_vars_expr(e),
    }
}

pub open spec fn let_vars_exprs(s: Seq<SExpr>) -> Seq<SVar>
    decreases s,
{
    if s.len() == 0 {
        Seq::empty()
    } else {
        let_vars_exprs(s.subrange(0, s.len() - 1)) + let_vars_expr(s[s.len() - 1])
    }
}

pub open spec fn let_vars_expr(e: SExpr) -> Seq<SVar>
    decreases e,
{
    match e {
        SExpr::Block(b) => let_vars_block(b),
        SExpr::If(c, a, b) => let_vars_expr(*c) + let_vars_expr(*a) + let_vars_expr(*b),
        SExpr::BinaryOp(l, _, r) => let_vars_expr(*l) + let_vars_expr(*r),
        SExpr::Share(x) => let_vars_expr(*x),
        SExpr::ArrayNew(_, x) => let_vars_expr(*x),
        SExpr::ArrayCapacity(_, x) => let_vars_expr(*x),
        SExpr::IsLastRef(_, x) => let_vars_expr(*x),
        SExpr::ArrayGive(_, a, b) => let_vars_expr(*a) + let_vars_expr(*b),
        SExpr::ArrayDrop(_, a, b, c) => let_vars_expr(*a) + let_vars_expr(*b) + let_vars_expr(*c),
        SExpr::ArrayWrite(_, a, b, c) => let_vars_expr(*a) + let_vars_expr(*b) + let_vars_expr(
            *c,
        ),
        SExpr::Call(r, _, _, args) => let_vars_expr(*r) + let_vars_exprs(args),
        SExpr::Tuple(es) => let_vars_exprs(es),
        SExpr::New(_, _, args) => let_vars_exprs(args),
        _ => Seq::empty(),
    }
}

/// The variables declared by a method: `self`, then its inputs, then every
/// variable its body declares with `let`.
pub open spec fn bound_vars_of(m: SMethodDeclBoundData) -> Seq<SVar> {
    seq![SVar::This] + m.inputs.map_values(|d: SLocalVariableDecl| SVar::Id(d.name)) + match m.body {
        SMethodBody::Trusted => Seq::empty(),
        SMethodBody::Block(b) => let_vars_block(b),
    }
}

fn collect_let_bound_vars_in_block(block: &Block, vars: &mut Vec<Var>)
    ensures
        var_views(final(vars)@) == var_views(old(vars)@) + let_vars_block(block@),
    decreases block,
{
    let ghost start = var_views(vars@);
    let mut i: usize = 0;
    proof {
        lemma_statements_view(block.statements@);
        assert(statements_view(block.statements@).subrange(0, 0) =~= Seq::<SStatement>::empty());
    }
    while i < block.statements.len()
        invariant
            i <= block.statements@.len(),
            statements_view(block.statements@).len() == block.statements@.len(),
            forall|j: int| 0 <= j < block.statements@.len() ==> #[trigger] statements_view(block.statements@)[j] == block.statements@[j]@,
            var_views(vars@) == start + let_vars_statements(statements_view(block.statements@).subrange(0, i as int)),
        decreases block.statements.len() - i,
    {
        proof {
            assert(decreases_to!(block => block.statements));
            assert(decreases_to!(block.statements => block.statements@));
        }
        collect_let_bound_vars_in_statement(&block.statements[i], vars);
        proof {
            let sv = statements_view(block.statements@);
            assert(sv.subrange(0, i + 1).subrange(0, i as int) =~= sv.subrange(0, i as int));
            assert(sv.subrange(0, i + 1)[i as int] == block.statements@[i as int]@);
        }
        i = i + 1;
    }
    proof {
        assert(statements_view(block.statements@).subrange(0, i as int) =~= statements_view(block.statements@));
    }
}

fn collect_let_bound_vars_in_statement(statement: &Statement, vars: &mut Vec<Var>)
    ensures
        var_views(final(vars)@) == var_views(old(vars)@) + let_vars_statement(statement@),
    decreases statement,
{
    let ghost before = var_views(vars@);
    match statement {
        Statement::Let(name, _, init) => {
            vars.push(Var::Id(name.copy()));
            assert(var_views(vars@) =~= before + seq![SVar::Id(name@)]);
            collect_let_bound_vars_in_expr(init, vars);
            assert(var_views(vars@) =~= before + let_vars_statement(statement@));
        },
        Statement::Expr(expr) => collect_let_bound_vars_in_expr(expr, vars),
        Statement::Reassign(_, expr) => collect_let_bound_vars_in_expr(expr, vars),
        Statement::Loop(block) => collect_let_bound_vars_in_block(block, vars),
        Statement::Break => {
            assert(var_views(vars@) =~= before + Seq::<SVar>::empty());
        },
        Statement::Return(expr) => collect_let_bound_vars_in_expr(expr, vars),
        Statement::Print(expr) => collect_let_bound_vars_in_expr(expr, vars),
    }
}

fn collect_let_bound_vars_in_exprs(exprs: &Vec<Expr>, vars: &mut Vec<Var>)
    ensures
        var_views(final(vars)@) == var_views(old(vars)@) + let_vars_exprs(exprs_view(exprs@)),
    decreases exprs,
{
    let ghost start = var_views(vars@);
    let ghost ev = exprs_view(exprs@);
    let mut i: usize = 0;
    proof {
        lemma_exprs_view(exprs@);
        assert(ev.subrange(0, 0) =~= Seq::<SExpr>::empty());
    }
    while i < exprs.len()
        invariant
            ev == exprs_view(exprs@),
            i <= exprs@.len(),
            ev.len() == exprs@.len(),
            forall|j: int| 0 <= j < exprs@.len() ==> #[trigger] ev[j] == exprs@[j]@,
            var_views(vars@) == start + let_vars_exprs(ev.subrange(0, i as int)),
        decreases exprs.len() - i,
    {
        proof {
            assert(decreases_to!(exprs => exprs@));
        }
        collect_let_bound_vars_in_expr(&exprs[i], vars);
        proof {
            assert(ev.subrange(0, i + 1).subrange(0, i as int) =~= ev.subrange(0, i as int));
        }
        i = i + 1;
    }
    proof {
        assert(ev.subrange(0, i as int) =~= ev);
    }
}

fn collect_let_bound_vars_in_expr(expr: &Expr, vars: &mut Vec<Var>)
    ensures
        var_views(final(vars)@) == var_views(old(vars)@) + let_vars_expr(expr@),
    decreases expr,
{
    let ghost before = var_views(vars@);
    match expr {
        Expr::Block(block) => {
            proof {
                assert(decreases_to!(*expr => (*expr)->Block_0));
            }
            collect_let_bound_vars_in_block(block, vars)
        },
        Expr::If(cond, then_branch, else_branch) => {
            collect_let_bound_vars_in_expr(cond, vars);
            collect_let_bound_vars_in_expr(then_branch, vars);
            collect_let_bound_vars_in_expr(else_branch, vars);
            assert(var_views(vars@) =~= before + let_vars_expr(expr@));
        },
        Expr::BinaryOp(lhs, _, rhs) => {
            collect_let_bound_vars_in_expr(lhs, vars);
            collect_let_bound_vars_in_expr(rhs, vars);
            assert(var_views(vars@) =~= before + let_vars_expr(expr@));
        },
        Expr::Share(e) => collect_let_bound_vars_in_expr(e, vars),
        Expr::ArrayNew(_, e) => collect_let_bound_vars_in_expr(e, vars),
        Expr::ArrayCapacity(_, e) => collect_let_bound_vars_in_expr(e, vars),
        Expr::IsLastRef(_, e) => collect_let_bound_vars_in_expr(e, vars),
        Expr::ArrayGive(_, a, b) => {
            collect_let_bound_vars_in_expr(a, vars);
            collect_let_bound_vars_in_expr(b, vars);
            assert(var_views(vars@) =~= before + let_vars_expr(expr@));
        },
        Expr::ArrayDrop(_, a, b, c) => {
            collect_let_bound_vars_in_expr(a, vars);
            collect_let_bound_vars_in_expr(b, vars);
            collect_let_bound_vars_in_expr(c, vars);
            assert(var_views(vars@) =~= before + let_vars_expr(expr@));
        },
        Expr::ArrayWrite(_, a, b, c) => {
            collect_let_bound_vars_in_expr(a, vars);
            collect_let_bound_vars_in_expr(b, vars);
            collect_let_bound_vars_in_expr(c, vars);
            assert(var_views(vars@) =~= before + let_vars_expr(expr@));
        },
        Expr::Call(receiver, _, _, args) => {
            proof {
                assert(decreases_to!(*expr => (*expr)->Call_3));
            }
            collect_let_bound_vars_in_expr(receiver, vars);
            collect_let_bound_vars_in_exprs(args, vars);
            assert(var_views(vars@) =~= before + let_vars_expr(expr@));
        },
        Expr::Tuple(exprs) => {
            proof {
                assert(decreases_to!(*expr => (*expr)->Tuple_0));
            }
            collect_let_bound_vars_in_exprs(exprs, vars)
        },
        Expr::New(_, _, args) => {
            proof {
                assert(decreases_to!(*expr => (*expr)->New_2));
            }
            collect_let_bound_vars_in_exprs(args, vars)
        },
        _ => {
            assert(var_views(vars@) =~= before + let_vars_expr(expr@));
        },
    }
}

/// Collects the variables a method declares (see [`bound_vars_of`]).
fn collect_bound_vars(method: &MethodDeclBoundData) -> (r: Vec<Var>)
    ensures
        var_views(r@) == bound_vars_of(method@),
{
    let mut vars: Vec<Var> = vec![Var::This];
    let mut i: usize = 0;
    while i < method.inputs.len()
        invariant
            i <= method.inputs@.len(),
            var_views(vars@) == seq![SVar::This] + method@.inputs.subrange(0, i as int).map_values(
                |d: SLocalVariableDecl| SVar::Id(d.name),
            ),
        decreases method.inputs.len() - i,
    {
        let ghost old_views = var_views(vars@);
        let ghost f = |d: SLocalVariableDecl| SVar::Id(d.name);
        vars.push(Var::Id(method.inputs[i].name.copy()));
        proof {
            assert(var_views(vars@) =~= old_views.push(SVar::Id(method.inputs@[i as int].name@)));
            assert(method@.inputs[i as int] == method.inputs@[i as int]@);
            assert(method@.inputs.subrange(0, i + 1).map_values(f) =~= method@.inputs.subrange(
                0,
                i as int,
            ).map_values(f).push(f(method@.inputs[i as int])));
        }
        i = i + 1;
        assert(var_views(vars@) =~= seq![SVar::This] + method@.inputs.subrange(0, i as int).map_values(
            |d: SLocalVariableDecl| SVar::Id(d.name),
        ));
    }
    assert(method@.inputs.subrange(0, i as int) =~= method@.inputs);
    if let MethodBody::Block(block) = &method.body {
        collect_let_bound_vars_in_block(block, &mut vars);
    } else {
        assert(var_views(vars@) =~= var_views(vars@) + Seq::<SVar>::empty());
    }
    vars
}

pub open spec fn digit_char(d: int) -> char {
    if d == 0 { '0' }
    else if d == 1 { '1' }
    else if d == 2 { '2' }
    else if d == 3 { '3' }
    else if d == 4 { '4' }
    else if d == 5 { '5' }
    else if d == 6 { '6' }
    else if d == 7 { '7' }
    else if d == 8 { '8' }
    else { '9' }
}

/// The decimal spelling of `n`.
pub open spec fn decimal(n: nat) -> Seq<char>
    decreases n,
{
    if n < 10 {
        seq![digit_char(n as int)]
    } else {
        decimal(n / 10).push(digit_char((n % 10) as int))
    }
}

/// The fresh name a declared variable gets at nesting depth `depth`:
/// `_{depth}_self` for `self` and `_{depth}_{x}` for `x`.
pub open spec fn renamed_name(v: SVar, depth: nat) -> Seq<char> {
    let prefix = seq!['_'] + decimal(depth) + seq!['_'];
    match v {
        SVar::Id(name) => prefix + name,
        _ => prefix + seq!['s', 'e', 'l', 'f'],
    }
}

fn push_digit(chars: &mut Vec<char>, d: usize)
    requires
        d < 10,
    ensures
        final(chars)@ == old(chars)@.push(digit_char(d as int)),
{
    let c = if d == 0 { '0' }
    else if d == 1 { '1' }
    else if d == 2 { '2' }
    else if d == 3 { '3' }
    else if d == 4 { '4' }
    else if d == 5 { '5' }
    else if d == 6 { '6' }
    else if d == 7 { '7' }
    else if d == 8 { '8' }
    else { '9' };
    chars.push(c);
}

fn push_decimal(chars: &mut Vec<char>, n: usize)
    ensures
        final(chars)@ == old(chars)@ + decimal(n as nat),
    decreases n,
{
    if n < 10 {
        push_digit(chars, n);
        assert(final(chars)@ =~= old(chars)@ + decimal(n as nat));
    } else {
        push_decimal(chars, n / 10);
        push_digit(chars, n % 10);
        assert(final(chars)@ =~= old(chars)@ + decimal(n as nat));
    }
}

/// Alpha-renames every variable a method declares: `self` becomes
/// `_{depth}_self` and each `x` becomes `_{depth}_{x}`.
///
/// Returns the renamed method, the variables that were renamed and the
/// places (plain variables) they were renamed to.
pub fn alpha_rename_method(method: &MethodDeclBoundData, depth: usize) -> (r: (
    MethodDeclBoundData,
    Vec<Var>,
    Vec<Place>,
))
    ensures
        var_views(r.1@) == bound_vars_of(method@),
        r.2@.len() == r.1@.len(),
        forall|i: int| 0 <= i < r.2@.len() ==> #[trigger] r.2@[i]@ == var_place(
            SVar::Id(renamed_name(r.1@[i]@, depth as nat)),
        ),
        r.0@ == MethodDeclBoundData::transformed(method@, put_all(r.1@, r.2@)),
{
    let bound_vars = collect_bound_vars(method);
    let mut renamed_places: Vec<Place> = Vec::new();
    let mut i: usize = 0;
    while i < bound_vars.len()
        invariant
            i <= bound_vars@.len(),
            renamed_places@.len() == i,
            forall|j: int| 0 <= j < i ==> #[trigger] renamed_places@[j]@ == var_place(
                SVar::Id(renamed_name(bound_vars@[j]@, depth as nat)),
            ),
        decreases bound_vars.len() - i,
    {
        let mut chars: Vec<char> = vec!['_'];
        push_decimal(&mut chars, depth);
        chars.push('_');
        match &bound_vars[i] {
            Var::Id(name) => {
                let mut k: usize = 0;
                let ghost base = chars@;
                while k < name.chars.len()
                    invariant
                        k <= name.chars@.len(),
                        chars@ == base + name.chars@.subrange(0, k as int),
                    decreases name.chars.len() - k,
                {
                    chars.push(name.chars[k]);
                    k = k + 1;
                    assert(chars@ =~= base + name.chars@.subrange(0, k as int));
                }
                assert(name.chars@.subrange(0, k as int) =~= name.chars@);
            },
            _ => {
                chars.push('s');
                chars.push('e');
                chars.push('l');
                chars.push('f');
            },
        }
        assert(chars@ =~= renamed_name(bound_vars@[i as int]@, depth as nat));
        let place = Place::from_var(Var::Id(Ident::new(chars)));
        renamed_places.push(place);
        i = i + 1;
    }
    let t = Transform::Put(bound_vars.as_slice(), renamed_places.as_slice());
    assert(names_ok(t@)) by {
        let vs = bound_vars@.map_values(|v: Var| v@);
        let ps = renamed_places@.map_values(|p: Place| p@);
        assert forall|i: int| 0 <= i < vs.len() && #[trigger] vs[i] is Id implies ps[i].var is Id by {
            assert(ps[i] == renamed_places@[i]@);
        }
    }
    let renamed = method.with_places_transformed(t);
    (renamed, bound_vars, renamed_places)
}


// ---------------------------------------------------------------------------
// Laws
// ---------------------------------------------------------------------------

/// Storing no variables anywhere.
pub open spec fn put_nothing() -> STransform {
    STransform::Put(Seq::empty(), Seq::empty())
}

/// Storing no variables leaves a permission unchanged.
pub proof fn law_put_nothing_perm(p: SPerm)
    ensures
        transform_perm(p, put_nothing()) == p,
    decreases p,
{
    match p {
        SPerm::Mv(s) => {
            assert(transform_place_set(s, put_nothing()) =~= s);
        },
        SPerm::Rf(s) => {
            assert(transform_place_set(s, put_nothing()) =~= s);
        },
        SPerm::Mt(s) => {
            assert(transform_place_set(s, put_nothing()) =~= s);
        },
        SPerm::Apply(l, r) => {
            law_put_nothing_perm(*l);
            law_put_nothing_perm(*r);
        },
        SPerm::Or(ps) => {
            lemma_transform_perms(ps, put_nothing());
            assert forall|i: int| 0 <= i < ps.len() implies transform_perm(ps[i], put_nothing()) == ps[i] by {
                law_put_nothing_perm(ps[i]);
            }
            assert(transform_perms(ps, put_nothing()) =~= ps);
        },
        _ => {},
    }
}

/// Storing no variables leaves a type unchanged.
pub proof fn law_put_nothing_ty(t: STy)
    ensures
        transform_ty(t, put_nothing()) == t,
    decreases t,
{
    match t {
        STy::NamedTy(n) => {
            lemma_transform_parameters(n.parameters, put_nothing());
            assert forall|i: int| 0 <= i < n.parameters.len() implies transform_parameter(
                n.parameters[i],
                put_nothing(),
            ) == n.parameters[i] by {
                law_put_nothing_parameter(n.parameters[i]);
            }
            assert(transform_parameters(n.parameters, put_nothing()) =~= n.parameters);
        },
        STy::ApplyPerm(p, inner) => {
            law_put_nothing_perm(p);
            law_put_nothing_ty(*inner);
        },
        STy::Var(_) => {},
    }
}

/// Storing no variables leaves a parameter unchanged.
pub proof fn law_put_nothing_parameter(p: SParameter)
    ensures
        transform_parameter(p, put_nothing()) == p,
    decreases p,
{
    match p {
        SParameter::Ty(t) => law_put_nothing_ty(t),
        SParameter::Perm(q) => law_put_nothing_perm(q),
    }
}

proof fn lemma_put_nothing_parameters(ps: Seq<SParameter>)
    ensures
        transform_parameters(ps, put_nothing()) == ps,
{
    lemma_transform_parameters(ps, put_nothing());
    assert forall|i: int| 0 <= i < ps.len() implies transform_parameter(ps[i], put_nothing()) == ps[i] by {
        law_put_nothing_parameter(ps[i]);
    }
    assert(transform_parameters(ps, put_nothing()) =~= ps);
}

/// Storing no variables leaves an expression unchanged.
pub proof fn law_put_nothing_expr(e: SExpr)
    ensures
        transform_expr(e, put_nothing()) == e,
    decreases e,
{
    let t = put_nothing();
    match e {
        SExpr::Block(b) => law_put_nothing_block(b),
        SExpr::BinaryOp(l, _, r) => {
            law_put_nothing_expr(*l);
            law_put_nothing_expr(*r);
        },
        SExpr::Share(x) => law_put_nothing_expr(*x),
        SExpr::Tuple(es) => lemma_put_nothing_exprs(es),
        SExpr::Call(r, _, ps, args) => {
            law_put_nothing_expr(*r);
            lemma_put_nothing_parameters(ps);
            lemma_put_nothing_exprs(args);
        },
        SExpr::New(_, ps, args) => {
            lemma_put_nothing_parameters(ps);
            lemma_put_nothing_exprs(args);
        },
        SExpr::If(c, a, b) => {
            law_put_nothing_expr(*c);
            law_put_nothing_expr(*a);
            law_put_nothing_expr(*b);
        },
        SExpr::SizeOf(ps) => lemma_put_nothing_parameters(ps),
        SExpr::ArrayNew(ps, a) => {
            lemma_put_nothing_parameters(ps);
            law_put_nothing_expr(*a);
        },
        SExpr::ArrayCapacity(ps, a) => {
            lemma_put_nothing_parameters(ps);
            law_put_nothing_expr(*a);
        },
        SExpr::ArrayGive(ps, a, b) => {
            lemma_put_nothing_parameters(ps);
            law_put_nothing_expr(*a);
            law_put_nothing_expr(*b);
        },
        SExpr::ArrayDrop(ps, a, b, c) => {
            lemma_put_nothing_parameters(ps);
            law_put_nothing_expr(*a);
            law_put_nothing_expr(*b);
            law_put_nothing_expr(*c);
        },
        SExpr::ArrayWrite(ps, a, b, c) => {
            lemma_put_nothing_parameters(ps);
            law_put_nothing_expr(*a);
            law_put_nothing_expr(*b);
            law_put_nothing_expr(*c);
        },
        SExpr::IsLastRef(ps, a) => {
            lemma_put_nothing_parameters(ps);
            law_put_nothing_expr(*a);
        },
        _ => {},
    }
}

proof fn lemma_put_nothing_exprs(es: Seq<SExpr>)
    ensures
        transform_exprs(es, put_nothing()) == es,
    decreases es,
{
    lemma_transform_exprs(es, put_nothing());
    assert forall|i: int| 0 <= i < es.len() implies transform_expr(es[i], put_nothing()) == es[i] by {
        law_put_nothing_expr(es[i]);
    }
    assert(transform_exprs(es, put_nothing()) =~= es);
}

/// Storing no variables leaves a statement unchanged.
pub proof fn law_put_nothing_statement(st: SStatement)
    ensures
        transform_statement(st, put_nothing()) == st,
    decreases st,
{
    match st {
        SStatement::Expr(e) => law_put_nothing_expr(e),
        SStatement::Let(_, a, e) => {
            match a {
                SAscription::Ty(ty) => law_put_nothing_ty(ty),
                SAscription::NoTy => {},
            }
            law_put_nothing_expr(*e);
        },
        SStatement::Reassign(_, e) => law_put_nothing_expr(e),
        SStatement::Loop(b) => law_put_nothing_block(b),
        SStatement::Return(e) => law_put_nothing_expr(e),
        SStatement::Print(e) => law_put_nothing_expr(e),
        SStatement::Break => {},
    }
}

/// Storing no variables leaves a block unchanged.
pub proof fn law_put_nothing_block(b: SBlock)
    ensures
        transform_block(b, put_nothing()) == b,
    decreases b,
{
    let ss = b.statements;
    lemma_transform_statements(ss, put_nothing());
    assert forall|i: int| 0 <= i < ss.len() implies transform_statement(ss[i], put_nothing()) == ss[i] by {
        law_put_nothing_statement(ss[i]);
    }
    assert(transform_statements(ss, put_nothing()) =~= ss);
}

/// Giving away `g` and then storing the in-flight value back into `g`
/// gives back every place that is not rooted in the in-flight value.
pub proof fn law_give_then_store_back_place(q: SPlace, g: SPlace)
    requires
        q.var != SVar::InFlight,
    ensures
        transform_place(transform_place(q, STransform::Give(g)), put_one(SVar::InFlight, g)) == q,
{
    let t = put_one(SVar::InFlight, g);
    let vars = seq![SVar::InFlight];
    let w = transform_place(q, STransform::Give(g));
    if is_prefix(g, q) {
        assert(0 <= 0 < vars.len() && vars[0] == SVar::InFlight && (forall|j: int| 0 <= j < 0 ==> vars[j] != SVar::InFlight));
        assert(position_of(vars, w.var) == 0);
        assert(g.projections + w.projections =~= q.projections);
    } else {
        assert(position_of(vars, q.var) == -1);
    }
}

/// `t` leaves place `p` as it is.
pub open spec fn place_fixed(p: SPlace, t: STransform) -> bool {
    transform_place(p, t) == p
}

/// `t` leaves the declared name `id` as it is.
pub open spec fn name_fixed(id: Seq<char>, t: STransform) -> bool {
    rename_id(id, t) == id
}

/// `t` leaves every place of `s` as it is.
pub open spec fn places_fixed(s: Set<SPlace>, t: STransform) -> bool {
    forall|q: SPlace| #[trigger] s.contains(q) ==> place_fixed(q, t)
}

/// Every place named in `p` is left as it is by `t`.
pub open spec fn perm_fixed(p: SPerm, t: STransform) -> bool
    decreases p,
{
    match p {
        SPerm::Mv(s) => places_fixed(s, t),
        SPerm::Rf(s) => places_fixed(s, t),
        SPerm::Mt(s) => places_fixed(s, t),
        SPerm::Apply(l, r) => perm_fixed(*l, t) && perm_fixed(*r, t),
        SPerm::Or(ps) => perms_fixed(ps, t),
        _ => true,
    }
}

pub open spec fn perms_fixed(s: Seq<SPerm>, t: STransform) -> bool
    decreases s,
{
    if s.len() == 0 {
        true
    } else {
        perms_fixed(s.subrange(0, s.len() - 1), t) && perm_fixed(s[s.len() - 1], t)
    }
}

/// Every place named in `ty` is left as it is by `t`.
pub open spec fn ty_fixed(ty: STy, t: STransform) -> bool
    decreases ty,
{
    match ty {
        STy::NamedTy(n) => parameters_fixed(n.parameters, t),
        STy::Var(_) => true,
        STy::ApplyPerm(p, inner) => perm_fixed(p, t) && ty_fixed(*inner, t),
    }
}

pub open spec fn parameter_fixed(p: SParameter, t: STransform) -> bool
    decreases p,
{
    match p {
        SParameter::Ty(ty) => ty_fixed(ty, t),
        SParameter::Perm(perm) => perm_fixed(perm, t),
    }
}

pub open spec fn parameters_fixed(s: Seq<SParameter>, t: STransform) -> bool
    decreases s,
{
    if s.len() == 0 {
        true
    } else {
        parameters_fixed(s.subrange(0, s.len() - 1), t) && parameter_fixed(s[s.len() - 1], t)
    }
}

pub open spec fn ascription_fixed(a: SAscription, t: STransform) -> bool {
    match a {
        SAscription::NoTy => true,
        SAscription::Ty(ty) => ty_fixed(ty, t),
    }
}

/// Every place and declared name in `e` is left as it is by `t`.
pub open spec fn expr_fixed(e: SExpr, t: STransform) -> bool
    decreases e,
{
    match e {
        SExpr::Block(b) => block_fixed(b, t),
        SExpr::BinaryOp(l, _, r) => expr_fixed(*l, t) && expr_fixed(*r, t),
        SExpr::Place(pe) => place_fixed(pe.place, t),
        SExpr::Share(x) => expr_fixed(*x, t),
        SExpr::Tuple(es) => exprs_fixed(es, t),
        SExpr::Call(r, _, ps, args) => expr_fixed(*r, t) && parameters_fixed(ps, t) && exprs_fixed(args, t),
        SExpr::New(_, ps, args) => parameters_fixed(ps, t) && exprs_fixed(args, t),
        SExpr::Clear(v) => name_fixed(v, t),
        SExpr::If(c, a, b) => expr_fixed(*c, t) && expr_fixed(*a, t) && expr_fixed(*b, t),
        SExpr::SizeOf(ps) => parameters_fixed(ps, t),
        SExpr::ArrayNew(ps, a) => parameters_fixed(ps, t) && expr_fixed(*a, t),
        SExpr::ArrayCapacity(ps, a) => parameters_fixed(ps, t) && expr_fixed(*a, t),
        SExpr::ArrayGive(ps, a, b) => parameters_fixed(ps, t) && expr_fixed(*a, t) && expr_fixed(*b, t),
        SExpr::ArrayDrop(ps, a, b, c) => parameters_fixed(ps, t) && expr_fixed(*a, t) && expr_fixed(*b, t)
            && expr_fixed(*c, t),
        SExpr::ArrayWrite(ps, a, b, c) => parameters_fixed(ps, t) && expr_fixed(*a, t) && expr_fixed(*b, t)
            && expr_fixed(*c, t),
        SExpr::IsLastRef(ps, a) => parameters_fixed(ps, t) && expr_fixed(*a, t),
        _ => true,
    }
}

pub open spec fn exprs_fixed(s: Seq<SExpr>, t: STransform) -> bool
    decreases s,
{
    if s.len() == 0 {
        true
    } else {
        exprs_fixed(s.subrange(0, s.len() - 1), t) && expr_fixed(s[s.len() - 1], t)
    }
}

pub open spec fn block_fixed(b: SBlock, t: STransform) -> bool
    decreases b,
{
    statements_fixed(b.statements, t)
}

pub open spec fn statement_fixed(st: SStatement, t: STransform) -> bool
    decreases st,
{
    match st {
        SStatement::Expr(e) => expr_fixed(e, t),
        SStatement::Let(v, a, e) => name_fixed(v, t) && ascription_fixed(a, t) && expr_fixed(*e, t),
        SStatement::Reassign(p, e) => place_fixed(p, t) && expr_fixed(e, t),
        SStatement::Loop(b) => block_fixed(b, t),
        SStatement::Break => true,
        SStatement::Return(e) => expr_fixed(e, t),
        SStatement::Print(e) => expr_fixed(e, t),
    }
}

pub open spec fn statements_fixed(s: Seq<SStatement>, t: STransform) -> bool
    decreases s,
{
    if s.len() == 0 {
        true
    } else {
        statements_fixed(s.subrange(0, s.len() - 1), t) && statement_fixed(s[s.len() - 1], t)
    }
}

proof fn lemma_fixed_place_set(s: Set<SPlace>, t: STransform)
    requires
        places_fixed(s, t),
    ensures
        transform_place_set(s, t) == s,
{
    assert forall|x: SPlace| transform_place_set(s, t).contains(x) <==> s.contains(x) by {
        if s.contains(x) {
            assert(place_fixed(x, t));
        }
    }
    assert(transform_place_set(s, t) =~= s);
}

/// A transform that leaves every place of a permission as it is leaves the
/// permission as it is.
pub proof fn law_fixed_perm(p: SPerm, t: STransform)
    requires
        perm_fixed(p, t),
    ensures
        transform_perm(p, t) == p,
    decreases p,
{
    match p {
        SPerm::Mv(s) => lemma_fixed_place_set(s, t),
        SPerm::Rf(s) => lemma_fixed_place_set(s, t),
        SPerm::Mt(s) => lemma_fixed_place_set(s, t),
        SPerm::Apply(l, r) => {
            law_fixed_perm(*l, t);
            law_fixed_perm(*r, t);
        },
        SPerm::Or(ps) => lemma_fixed_perms(ps, t),
        _ => {},
    }
}

proof fn lemma_fixed_perms(ps: Seq<SPerm>, t: STransform)
    requires
        perms_fixed(ps, t),
    ensures
        transform_perms(ps, t) == ps,
    decreases ps,
{
    if ps.len() > 0 {
        let d = ps.subrange(0, ps.len() - 1);
        lemma_fixed_perms(d, t);
        law_fixed_perm(ps[ps.len() - 1], t);
        assert(d.push(ps[ps.len() - 1]) =~= ps);
    }
}

/// A transform that leaves every place of a type as it is leaves the type
/// as it is.
pub proof fn law_fixed_ty(ty: STy, t: STransform)
    requires
        ty_fixed(ty, t),
    ensures
        transform_ty(ty, t) == ty,
    decreases ty,
{
    match ty {
        STy::NamedTy(n) => lemma_fixed_parameters(n.parameters, t),
        STy::ApplyPerm(p, inner) => {
            law_fixed_perm(p, t);
            law_fixed_ty(*inner, t);
        },
        STy::Var(_) => {},
    }
}

proof fn lemma_fixed_parameter(p: SParameter, t: STransform)
    requires
        parameter_fixed(p, t),
    ensures
        transform_parameter(p, t) == p,
    decreases p,
{
    match p {
        SParameter::Ty(ty) => law_fixed_ty(ty, t),
        SParameter::Perm(q) => law_fixed_perm(q, t),
    }
}

proof fn lemma_fixed_parameters(ps: Seq<SParameter>, t: STransform)
    requires
        parameters_fixed(ps, t),
    ensures
        transform_parameters(ps, t) == ps,
    decreases ps,
{
    if ps.len() > 0 {
        let d = ps.subrange(0, ps.len() - 1);
        lemma_fixed_parameters(d, t);
        lemma_fixed_parameter(ps[ps.len() - 1], t);
        assert(d.push(ps[ps.len() - 1]) =~= ps);
    }
}

/// A transform that leaves every place and declared name of an expression
/// as it is leaves the expression as it is.
pub proof fn law_fixed_expr(e: SExpr, t: STransform)
    requires
        expr_fixed(e, t),
    ensures
        transform_expr(e, t) == e,
    decreases e,
{
    match e {
        SExpr::Block(b) => law_fixed_block(b, t),
        SExpr::BinaryOp(l, _, r) => {
            law_fixed_expr(*l, t);
            law_fixed_expr(*r, t);
        },
        SExpr::Share(x) => law_fixed_expr(*x, t),
        SExpr::Tuple(es) => lemma_fixed_exprs(es, t),
        SExpr::Call(r, _, ps, args) => {
            law_fixed_expr(*r, t);
            lemma_fixed_parameters(ps, t);
            lemma_fixed_exprs(args, t);
        },
        SExpr::New(_, ps, args) => {
            lemma_fixed_parameters(ps, t);
            lemma_fixed_exprs(args, t);
        },
        SExpr::If(c, a, b) => {
            law_fixed_expr(*c, t);
            law_fixed_expr(*a, t);
            law_fixed_expr(*b, t);
        },
        SExpr::SizeOf(ps) => lemma_fixed_parameters(ps, t),
        SExpr::ArrayNew(ps, a) => {
            lemma_fixed_parameters(ps, t);
            law_fixed_expr(*a, t);
        },
        SExpr::ArrayCapacity(ps, a) => {
            lemma_fixed_parameters(ps, t);
            law_fixed_expr(*a, t);
        },
        SExpr::ArrayGive(ps, a, b) => {
            lemma_fixed_parameters(ps, t);
            law_fixed_expr(*a, t);
            law_fixed_expr(*b, t);
        },
        SExpr::ArrayDrop(ps, a, b, c) => {
            lemma_fixed_parameters(ps, t);
            law_fixed_expr(*a, t);
            law_fixed_expr(*b, t);
            law_fixed_expr(*c, t);
        },
        SExpr::ArrayWrite(ps, a, b, c) => {
            lemma_fixed_parameters(ps, t);
            law_fixed_expr(*a, t);
            law_fixed_expr(*b, t);
            law_fixed_expr(*c, t);
        },
        SExpr::IsLastRef(ps, a) => {
            lemma_fixed_parameters(ps, t);
            law_fixed_expr(*a, t);
        },
        _ => {},
    }
}

proof fn lemma_fixed_exprs(es: Seq<SExpr>, t: STransform)
    requires
        exprs_fixed(es, t),
    ensures
        transform_exprs(es, t) == es,
    decreases es,
{
    if es.len() > 0 {
        let d = es.subrange(0, es.len() - 1);
        lemma_fixed_exprs(d, t);
        law_fixed_expr(es[es.len() - 1], t);
        assert(d.push(es[es.len() - 1]) =~= es);
    }
}

/// A transform that leaves every place and declared name of a statement as
/// it is leaves the statement as it is.
pub proof fn law_fixed_statement(st: SStatement, t: STransform)
    requires
        statement_fixed(st, t),
    ensures
        transform_statement(st, t) == st,
    decreases st,
{
    match st {
        SStatement::Expr(e) => law_fixed_expr(e, t),
        SStatement::Let(_, a, e) => {
            match a {
                SAscription::Ty(ty) => law_fixed_ty(ty, t),
                SAscription::NoTy => {},
            }
            law_fixed_expr(*e, t);
        },
        SStatement::Reassign(_, e) => law_fixed_expr(e, t),
        SStatement::Loop(b) => law_fixed_block(b, t),
        SStatement::Return(e) => law_fixed_expr(e, t),
        SStatement::Print(e) => law_fixed_expr(e, t),
        SStatement::Break => {},
    }
}

/// A transform that leaves every place and declared name of a block as it
/// is leaves the block as it is.
pub proof fn law_fixed_block(b: SBlock, t: STransform)
    requires
        block_fixed(b, t),
    ensures
        transform_block(b, t) == b,
    decreases b,
{
    lemma_fixed_statements(b.statements, t);
}

proof fn lemma_fixed_statements(ss: Seq<SStatement>, t: STransform)
    requires
        statements_fixed(ss, t),
    ensures
        transform_statements(ss, t) == ss,
    decreases ss,
{
    if ss.len() > 0 {
        let d = ss.subrange(0, ss.len() - 1);
        lemma_fixed_statements(d, t);
        law_fixed_statement(ss[ss.len() - 1], t);
        assert(d.push(ss[ss.len() - 1]) =~= ss);
    }
}

/// Giving away `g` leaves a place that `g` is not a prefix of as it is, and
/// renames no declared name: so an expression none of whose places lies
/// under `g` is left as it is (see [`law_fixed_expr`]).
pub proof fn law_give_elsewhere(g: SPlace, q: SPlace, id: Seq<char>)
    ensures
        !is_prefix(g, q) ==> place_fixed(q, STransform::Give(g)),
        name_fixed(id, STransform::Give(g)),
{
}

} // verus!
