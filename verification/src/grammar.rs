//! Terms of the language: identifiers, variables, places, permissions,
//! types, predicates, expressions and statements, each with a
//! mathematical view that contracts are stated over.
use vstd::prelude::*;

verus! {

broadcast use vstd::std_specs::vec::axiom_vec_decreases_to_view;

// ---------------------------------------------------------------------------
// Identifiers
// ---------------------------------------------------------------------------

/// A name: of a local variable, a field, a method or a class.
pub struct Ident {
    pub chars: Vec<char>,
}

pub type ValueId = Ident;

pub type FieldId = Ident;

pub type MethodId = Ident;

pub type ClassName = Ident;

impl View for Ident {
    type V = Seq<char>;

    open spec fn view(&self) -> Seq<char> {
        self.chars@
    }
}

impl Ident {
    /// Builds a name out of its characters.
    pub fn new(chars: Vec<char>) -> (r: Ident)
        ensures
            r@ == chars@,
    {
        Ident { chars }
    }

    /// Builds a name from a string slice.
    pub fn from_str(s: &str) -> (r: Ident)
        ensures
            r@ == s@,
    {
        let n = s.unicode_len();
        let mut chars: Vec<char> = Vec::new();
        let mut i: usize = 0;
        while i < n
            invariant
                n == s@.len(),
                i <= n,
                chars@ == s@.subrange(0, i as int),
            decreases n - i,
        {
            let c = s.get_char(i);
            chars.push(c);
            i = i + 1;
        }
        Ident { chars }
    }

    /// True if both names are spelled the same way.
    pub fn same(&self, other: &Ident) -> (r: bool)
        ensures
            r == (self@ == other@),
    {
        if self.chars.len() != other.chars.len() {
            return false;
        }
        let mut i: usize = 0;
        while i < self.chars.len()
            invariant
                self.chars@.len() == other.chars@.len(),
                i <= self.chars@.len(),
                forall|j: int| 0 <= j < i ==> self.chars@[j] == other.chars@[j],
            decreases self.chars.len() - i,
        {
            if self.chars[i] != other.chars[i] {
                return false;
            }
            i = i + 1;
        }
        assert(self@ =~= other@);
        true
    }

    /// A copy of this name.
    pub fn copy(&self) -> (r: Ident)
        ensures
            r@ == self@,
    {
        let mut chars: Vec<char> = Vec::new();
        let mut i: usize = 0;
        while i < self.chars.len()
            invariant
                i <= self.chars@.len(),
                chars@ == self.chars@.subrange(0, i as int),
            decreases self.chars.len() - i,
        {
            chars.push(self.chars[i]);
            i = i + 1;
        }
        assert(chars@ =~= self.chars@);
        Ident { chars }
    }
}

// ---------------------------------------------------------------------------
// Program variables and places
// ---------------------------------------------------------------------------

/// A program variable.
pub enum Var {
    /// The receiver `self`.
    This,
    /// A named local variable.
    Id(ValueId),
    /// The value currently being produced by an expression.
    InFlight,
    /// A temporary introduced by the type checker.
    Fresh(usize),
    /// The value returned by a method.
    Return,
}

pub enum SVar {
    This,
    Id(Seq<char>),
    InFlight,
    Fresh(usize),
    Return,
}

impl View for Var {
    type V = SVar;

    open spec fn view(&self) -> SVar {
        match self {
            Var::This => SVar::This,
            Var::Id(id) => SVar::Id(id@),
            Var::InFlight => SVar::InFlight,
            Var::Fresh(n) => SVar::Fresh(*n),
            Var::Return => SVar::Return,
        }
    }
}

impl Var {
    /// True if both denote the same variable.
    pub fn same(&self, other: &Var) -> (r: bool)
        ensures
            r == (self@ == other@),
    {
        match (self, other) {
            (Var::This, Var::This) => true,
            (Var::Id(a), Var::Id(b)) => a.same(b),
            (Var::InFlight, Var::InFlight) => true,
            (Var::Fresh(a), Var::Fresh(b)) => *a == *b,
            (Var::Return, Var::Return) => true,
            _ => false,
        }
    }

    pub fn copy(&self) -> (r: Var)
        ensures
            r@ == self@,
    {
        match self {
            Var::This => Var::This,
            Var::Id(a) => Var::Id(a.copy()),
            Var::InFlight => Var::InFlight,
            Var::Fresh(a) => Var::Fresh(*a),
            Var::Return => Var::Return,
        }
    }
}

/// A field projection in a place.
pub enum Projection {
    Field(FieldId),
}

impl View for Projection {
    type V = Seq<char>;

    open spec fn view(&self) -> Seq<char> {
        match self {
            Projection::Field(f) => f@,
        }
    }
}

impl Projection {
    pub fn copy(&self) -> (r: Projection)
        ensures
            r@ == self@,
    {
        match self {
            Projection::Field(f) => Projection::Field(f.copy()),
        }
    }
}

/// A place: a variable followed by a path of field projections, like `x.f.g`.
pub struct Place {
    pub var: Var,
    pub projections: Vec<Projection>,
}

pub struct SPlace {
    pub var: SVar,
    pub projections: Seq<Seq<char>>,
}

pub open spec fn projections_view(ps: Seq<Projection>) -> Seq<Seq<char>> {
    ps.map_values(|p: Projection| p@)
}

impl View for Place {
    type V = SPlace;

    open spec fn view(&self) -> SPlace {
        SPlace { var: self.var@, projections: projections_view(self.projections@) }
    }
}

/// `p` names `q` or a part of `q`'s ancestors: same variable, and `p`'s
/// projections are a prefix of `q`'s.
pub open spec fn is_prefix(p: SPlace, q: SPlace) -> bool {
    p.var == q.var && p.projections.is_prefix_of(q.projections)
}

/// Two places overlap when one is a prefix of the other.
pub open spec fn is_overlapping(p: SPlace, q: SPlace) -> bool {
    is_prefix(p, q) || is_prefix(q, p)
}

/// Two places are disjoint when neither is a prefix of the other.
pub open spec fn is_disjoint(p: SPlace, q: SPlace) -> bool {
    !is_overlapping(p, q)
}

pub open spec fn is_strict_prefix(p: SPlace, q: SPlace) -> bool {
    is_prefix(p, q) && p.projections.len() < q.projections.len()
}

/// The place of variable `v` with no projections.
pub open spec fn var_place(v: SVar) -> SPlace {
    SPlace { var: v, projections: Seq::empty() }
}

/// The prefix of `p` made of its variable and its first `n` projections.
pub open spec fn prefix_place(p: SPlace, n: int) -> SPlace {
    SPlace { var: p.var, projections: p.projections.subrange(0, n) }
}

pub open spec fn project_place(p: SPlace, f: Seq<char>) -> SPlace {
    SPlace { var: p.var, projections: p.projections.push(f) }
}

/// The view of a set of places.
pub open spec fn place_set(ps: Seq<Place>) -> Set<SPlace> {
    ps.map_values(|p: Place| p@).to_set()
}

pub proof fn lemma_place_set_empty()
    ensures
        place_set(Seq::<Place>::empty()) == Set::<SPlace>::empty(),
{
    assert(place_set(Seq::<Place>::empty()) =~= Set::<SPlace>::empty());
}

pub proof fn lemma_place_set_push(s: Seq<Place>, p: Place)
    ensures
        place_set(s.push(p)) == place_set(s).insert(p@),
{
    let a = s.push(p).map_values(|q: Place| q@);
    let b = s.map_values(|q: Place| q@);
    assert(a =~= b.push(p@));
    assert forall|x: SPlace| a.contains(x) <==> (b.contains(x) || x == p@) by {
        if a.contains(x) {
            let i = choose|i: int| 0 <= i < a.len() && a[i] == x;
            if i < b.len() {
                assert(b[i] == x);
            }
        }
        if b.contains(x) {
            let i = choose|i: int| 0 <= i < b.len() && b[i] == x;
            assert(a[i] == x);
        }
        if x == p@ {
            assert(a[b.len() as int] == x);
        }
    }
    assert(place_set(s.push(p)) =~= place_set(s).insert(p@));
}

/// Membership in a set of places, by index.
pub proof fn lemma_place_set_contains(s: Seq<Place>, x: SPlace)
    ensures
        place_set(s).contains(x) <==> exists|i: int| 0 <= i < s.len() && #[trigger] s[i]@ == x,
{
    let v = s.map_values(|q: Place| q@);
    if place_set(s).contains(x) {
        let i = choose|i: int| 0 <= i < v.len() && v[i] == x;
        assert(s[i]@ == x);
    }
    if exists|i: int| 0 <= i < s.len() && #[trigger] s[i]@ == x {
        let i = choose|i: int| 0 <= i < s.len() && #[trigger] s[i]@ == x;
        assert(v[i] == x);
        assert(v.contains(x));
    }
}

/// The places of `places`, each once.
pub fn distinct_places(places: &Vec<Place>) -> (r: Vec<Place>)
    ensures
        place_set(r@) == place_set(places@),
        forall|i: int, j: int| 0 <= i < j < r@.len() ==> r@[i]@ != r@[j]@,
{
    let mut r: Vec<Place> = Vec::new();
    let mut i: usize = 0;
    while i < places.len()
        invariant
            i <= places@.len(),
            place_set(r@) == place_set(places@.subrange(0, i as int)),
            forall|a: int, b: int| 0 <= a < b < r@.len() ==> r@[a]@ != r@[b]@,
        decreases places.len() - i,
    {
        let mut seen = false;
        let mut j: usize = 0;
        while j < r.len()
            invariant
                i < places@.len(),
                j <= r@.len(),
                seen <==> exists|k: int| 0 <= k < j && #[trigger] r@[k]@ == places@[i as int]@,
            decreases r.len() - j,
        {
            if r[j].same(&places[i]) {
                seen = true;
            }
            j = j + 1;
        }
        proof {
            lemma_place_set_contains(r@, places@[i as int]@);
            assert(places@.subrange(0, i + 1) =~= places@.subrange(0, i as int).push(places@[i as int]));
            lemma_place_set_push(places@.subrange(0, i as int), places@[i as int]);
        }
        if !seen {
            let ghost old_r = r@;
            r.push(places[i].copy());
            proof {
                lemma_place_set_push(old_r, r@[old_r.len() as int]);
                assert(r@ =~= old_r.push(r@[old_r.len() as int]));
                assert forall|a: int, b: int| 0 <= a < b < r@.len() implies r@[a]@ != r@[b]@ by {
                    if b == old_r.len() {
                        assert(old_r[a] == r@[a]);
                    }
                }
            }
        } else {
            proof {
                assert(place_set(r@).contains(places@[i as int]@));
                assert(place_set(r@) =~= place_set(r@).insert(places@[i as int]@));
            }
        }
        i = i + 1;
    }
    proof {
        assert(places@.subrange(0, places@.len() as int) =~= places@);
    }
    r
}


impl Place {
    /// The place consisting of the variable alone.
    pub fn from_var(var: Var) -> (r: Place)
        ensures
            r@ == var_place(var@),
    {
        let r = Place { var, projections: Vec::new() };
        assert(r@.projections =~= Seq::<Seq<char>>::empty());
        r
    }

    pub fn new(var: Var, projections: Vec<Projection>) -> (r: Place)
        ensures
            r.var@ == var@,
            r.projections@ == projections@,
    {
        Place { var, projections }
    }

    pub fn copy(&self) -> (r: Place)
        ensures
            r@ == self@,
    {
        let mut projections: Vec<Projection> = Vec::new();
        let mut i: usize = 0;
        while i < self.projections.len()
            invariant
                i <= self.projections@.len(),
                projections@.len() == i,
                forall|j: int| 0 <= j < i ==> #[trigger] projections@[j]@ == self.projections@[j]@,
            decreases self.projections.len() - i,
        {
            projections.push(self.projections[i].copy());
            i = i + 1;
        }
        let r = Place { var: self.var.copy(), projections };
        assert(r@.projections =~= self@.projections);
        r
    }

    /// True if both denote the same place.
    pub fn same(&self, other: &Place) -> (r: bool)
        ensures
            r == (self@ == other@),
    {
        if !self.var.same(&other.var) || self.projections.len() != other.projections.len() {
            proof {
                if self@ == other@ {
                    assert(self@.projections.len() == other@.projections.len());
                }
            }
            return false;
        }
        let r = self.projections_prefix_of(other);
        proof {
            if r {
                assert(self@.projections =~= other@.projections);
            }
        }
        r
    }

    /// True if the projections of `self` are a prefix of those of `other`.
    fn projections_prefix_of(&self, other: &Place) -> (r: bool)
        ensures
            r == self@.projections.is_prefix_of(other@.projections),
    {
        if self.projections.len() > other.projections.len() {
            return false;
        }
        let mut i: usize = 0;
        while i < self.projections.len()
            invariant
                self.projections@.len() <= other.projections@.len(),
                i <= self.projections@.len(),
                forall|j: int| 0 <= j < i ==> self@.projections[j] == other@.projections[j],
            decreases self.projections.len() - i,
        {
            let Projection::Field(a) = &self.projections[i];
            let Projection::Field(b) = &other.projections[i];
            assert(self@.projections[i as int] == a@ && other@.projections[i as int] == b@);
            if !a.same(b) {
                return false;
            }
            i = i + 1;
        }
        true
    }

    /// True if `self` is `other` or names an enclosing part of it.
    pub fn is_prefix_of(&self, other: &Place) -> (r: bool)
        ensures
            r == is_prefix(self@, other@),
    {
        self.var.same(&other.var) && self.projections_prefix_of(other)
    }

    /// True if `self` is a prefix of `other` and shorter than it.
    pub fn is_strict_prefix_of(&self, other: &Place) -> (r: bool)
        ensures
            r == is_strict_prefix(self@, other@),
    {
        self.projections.len() < other.projections.len() && self.is_prefix_of(other)
    }

    /// True if one of the two places is a prefix of the other.
    pub fn is_overlapping_with(&self, other: &Place) -> (r: bool)
        ensures
            r == is_overlapping(self@, other@),
    {
        self.is_prefix_of(other) || other.is_prefix_of(self)
    }

    /// True if neither place is a prefix of the other.
    pub fn is_disjoint_from(&self, other: &Place) -> (r: bool)
        ensures
            r == is_disjoint(self@, other@),
    {
        !self.is_overlapping_with(other)
    }

    /// The place `self.field`.
    pub fn project(&self, field: &FieldId) -> (r: Place)
        ensures
            r@ == project_place(self@, field@),
    {
        let mut r = self.copy();
        r.projections.push(Projection::Field(field.copy()));
        assert(r@.projections =~= self@.projections.push(field@));
        r
    }

    /// The place that owns the last projection, if there is one.
    pub fn owner(&self) -> (r: Option<Place>)
        ensures
            self@.projections.len() == 0 ==> r is None,
            self@.projections.len() > 0 ==> (r matches Some(o) && o@ == prefix_place(
                self@,
                self@.projections.len() - 1,
            )),
    {
        if self.projections.len() == 0 {
            return None;
        }
        let n = self.projections.len() - 1;
        let mut projections: Vec<Projection> = Vec::new();
        let mut i: usize = 0;
        while i < n
            invariant
                n == self.projections@.len() - 1,
                i <= n,
                projections@.len() == i,
                forall|j: int| 0 <= j < i ==> #[trigger] projections@[j]@ == self.projections@[j]@,
            decreases n - i,
        {
            projections.push(self.projections[i].copy());
            i = i + 1;
        }
        let o = Place { var: self.var.copy(), projections };
        assert(o@.projections =~= self@.projections.subrange(0, n as int));
        Some(o)
    }

    /// The prefixes of `self` that are strictly shorter than it, shortest first.
    pub fn strict_prefixes(&self) -> (r: Vec<Place>)
        ensures
            r@.len() == self@.projections.len(),
            forall|i: int| 0 <= i < r@.len() ==> #[trigger] r@[i]@ == prefix_place(self@, i),
    {
        let mut r: Vec<Place> = Vec::new();
        let mut cur = Place::from_var(self.var.copy());
        assert(cur@.projections =~= self@.projections.subrange(0, 0));
        let mut i: usize = 0;
        while i < self.projections.len()
            invariant
                i <= self.projections@.len(),
                r@.len() == i,
                cur@ == prefix_place(self@, i as int),
                forall|k: int| 0 <= k < i ==> #[trigger] r@[k]@ == prefix_place(self@, k),
            decreases self.projections.len() - i,
        {
            let next = match &self.projections[i] {
                Projection::Field(f) => cur.project(f),
            };
            assert(next@.projections =~= self@.projections.subrange(0, i + 1));
            r.push(cur);
            cur = next;
            i = i + 1;
        }
        r
    }
}


/// Copies a list of places.
pub fn copy_places(ps: &Vec<Place>) -> (r: Vec<Place>)
    ensures
        r@.len() == ps@.len(),
        forall|i: int| 0 <= i < ps@.len() ==> #[trigger] r@[i]@ == ps@[i]@,
        place_set(r@) == place_set(ps@),
{
    let mut r: Vec<Place> = Vec::new();
    let mut i: usize = 0;
    while i < ps.len()
        invariant
            i <= ps@.len(),
            r@.len() == i,
            forall|j: int| 0 <= j < i ==> #[trigger] r@[j]@ == ps@[j]@,
        decreases ps.len() - i,
    {
        r.push(ps[i].copy());
        i = i + 1;
    }
    assert(r@.map_values(|p: Place| p@) =~= ps@.map_values(|p: Place| p@));
    r
}

// ---------------------------------------------------------------------------
// Generic variables
// ---------------------------------------------------------------------------

/// The kind of a generic parameter.
#[derive(PartialEq, Eq, Structural, Clone, Copy)]
pub enum Kind {
    Ty,
    Perm,
}

/// A generic parameter that is in scope, universally quantified.
#[derive(PartialEq, Eq, Structural, Clone, Copy)]
pub struct UniversalVar {
    pub kind: Kind,
    pub var_index: usize,
}

/// An inference variable.
#[derive(PartialEq, Eq, Structural, Clone, Copy)]
pub struct ExistentialVar {
    pub kind: Kind,
    pub var_index: usize,
}

/// A variable bound by a binder: `debruijn` counts the binders between
/// the occurrence and the binder that binds it, `var_index` selects the
/// variable among those the binder introduces.
#[derive(PartialEq, Eq, Structural, Clone, Copy)]
pub struct BoundVar {
    pub debruijn: usize,
    pub var_index: usize,
    pub kind: Kind,
}

/// A generic variable.
#[derive(PartialEq, Eq, Structural, Clone, Copy)]
pub enum Variable {
    UniversalVar(UniversalVar),
    ExistentialVar(ExistentialVar),
    BoundVar(BoundVar),
}

// ---------------------------------------------------------------------------
// Permissions, types and parameters
// ---------------------------------------------------------------------------

/// A permission.
pub enum Perm {
    /// Unique ownership.
    Given,
    /// Shared ownership.
    Shared,
    /// The permission moved out of the given places.
    Mv(Vec<Place>),
    /// A reference to the given places.
    Rf(Vec<Place>),
    /// A mutable lease of the given places.
    Mt(Vec<Place>),
    /// A permission variable.
    Var(Variable),
    /// `l r`: the permission `r` reached through `l`.
    Apply(Box<Perm>, Box<Perm>),
    /// Any of the given permissions.
    Or(Vec<Perm>),
}

pub enum SPerm {
    Given,
    Shared,
    Mv(Set<SPlace>),
    Rf(Set<SPlace>),
    Mt(Set<SPlace>),
    Var(Variable),
    Apply(Box<SPerm>, Box<SPerm>),
    Or(Seq<SPerm>),
}

pub open spec fn perm_view(p: &Perm) -> SPerm
    decreases p,
{
    match p {
        Perm::Given => SPerm::Given,
        Perm::Shared => SPerm::Shared,
        Perm::Mv(ps) => SPerm::Mv(place_set(ps@)),
        Perm::Rf(ps) => SPerm::Rf(place_set(ps@)),
        Perm::Mt(ps) => SPerm::Mt(place_set(ps@)),
        Perm::Var(v) => SPerm::Var(*v),
        Perm::Apply(l, r) => SPerm::Apply(Box::new(perm_view(l)), Box::new(perm_view(r))),
        Perm::Or(ps) => SPerm::Or(perms_view(ps@)),
    }
}

pub open spec fn perms_view(s: Seq<Perm>) -> Seq<SPerm>
    decreases s,
{
    if s.len() == 0 {
        Seq::empty()
    } else {
        perms_view(s.subrange(0, s.len() - 1)).push(perm_view(&s[s.len() - 1]))
    }
}

impl View for Perm {
    type V = SPerm;

    open spec fn view(&self) -> SPerm {
        perm_view(self)
    }
}

/// The name of a type.
pub enum TypeName {
    Tuple(usize),
    Int,
    Bool,
    Id(ClassName),
}

pub enum STypeName {
    Tuple(usize),
    Int,
    Bool,
    Id(Seq<char>),
}

impl View for TypeName {
    type V = STypeName;

    open spec fn view(&self) -> STypeName {
        match self {
            TypeName::Tuple(n) => STypeName::Tuple(*n),
            TypeName::Int => STypeName::Int,
            TypeName::Bool => STypeName::Bool,
            TypeName::Id(id) => STypeName::Id(id@),
        }
    }
}

impl TypeName {
    pub fn copy(&self) -> (r: TypeName)
        ensures
            r@ == self@,
    {
        match self {
            TypeName::Tuple(n) => TypeName::Tuple(*n),
            TypeName::Int => TypeName::Int,
            TypeName::Bool => TypeName::Bool,
            TypeName::Id(id) => TypeName::Id(id.copy()),
        }
    }

    pub fn same(&self, other: &TypeName) -> (r: bool)
        ensures
            r == (self@ == other@),
    {
        match (self, other) {
            (TypeName::Tuple(a), TypeName::Tuple(b)) => *a == *b,
            (TypeName::Int, TypeName::Int) => true,
            (TypeName::Bool, TypeName::Bool) => true,
            (TypeName::Id(a), TypeName::Id(b)) => a.same(b),
            _ => false,
        }
    }
}

/// A type applied to its generic parameters, like `Vec[given String]`.
pub struct NamedTy {
    pub name: TypeName,
    pub parameters: Vec<Parameter>,
}

/// A type.
pub enum Ty {
    NamedTy(NamedTy),
    Var(Variable),
    ApplyPerm(Perm, Box<Ty>),
}

/// A generic argument: a type or a permission.
pub enum Parameter {
    Ty(Ty),
    Perm(Perm),
}

pub struct SNamedTy {
    pub name: STypeName,
    pub parameters: Seq<SParameter>,
}

pub enum STy {
    NamedTy(SNamedTy),
    Var(Variable),
    ApplyPerm(SPerm, Box<STy>),
}

pub enum SParameter {
    Ty(STy),
    Perm(SPerm),
}

pub open spec fn ty_view(t: &Ty) -> STy
    decreases t,
{
    match t {
        Ty::NamedTy(n) => STy::NamedTy(
            SNamedTy { name: n.name@, parameters: parameters_view(n.parameters@) },
        ),
        Ty::Var(v) => STy::Var(*v),
        Ty::ApplyPerm(p, t) => STy::ApplyPerm(p@, Box::new(ty_view(t))),
    }
}

pub open spec fn parameter_view(p: &Parameter) -> SParameter
    decreases p,
{
    match p {
        Parameter::Ty(t) => SParameter::Ty(ty_view(t)),
        Parameter::Perm(p) => SParameter::Perm(p@),
    }
}

pub open spec fn parameters_view(s: Seq<Parameter>) -> Seq<SParameter>
    decreases s,
{
    if s.len() == 0 {
        Seq::empty()
    } else {
        parameters_view(s.subrange(0, s.len() - 1)).push(parameter_view(&s[s.len() - 1]))
    }
}

impl View for Ty {
    type V = STy;

    open spec fn view(&self) -> STy {
        ty_view(self)
    }
}

impl View for Parameter {
    type V = SParameter;

    open spec fn view(&self) -> SParameter {
        parameter_view(self)
    }
}

impl View for NamedTy {
    type V = SNamedTy;

    open spec fn view(&self) -> SNamedTy {
        SNamedTy { name: self.name@, parameters: parameters_view(self.parameters@) }
    }
}

/// What a parameter predicate claims of a type or permission.
#[derive(PartialEq, Eq, Structural, Clone, Copy)]
pub enum ParameterPredicate {
    Copy,
    Move,
    Owned,
    Mut,
    Given,
    Shared,
    Share,
}

/// The variance a class declares for a generic parameter.
#[derive(PartialEq, Eq, Structural, Clone, Copy)]
pub enum VarianceKind {
    Relative,
    Atomic,
}

/// A where-clause.
pub enum Predicate {
    Parameter(ParameterPredicate, Parameter),
    Variance(VarianceKind, Parameter),
}

pub enum SPredicate {
    Parameter(ParameterPredicate, SParameter),
    Variance(VarianceKind, SParameter),
}

impl View for Predicate {
    type V = SPredicate;

    open spec fn view(&self) -> SPredicate {
        match self {
            Predicate::Parameter(k, p) => SPredicate::Parameter(*k, p@),
            Predicate::Variance(k, p) => SPredicate::Variance(*k, p@),
        }
    }
}


// ---------------------------------------------------------------------------
// Facts about views of sequences of terms
// ---------------------------------------------------------------------------

pub proof fn lemma_perms_view(s: Seq<Perm>)
    ensures
        perms_view(s).len() == s.len(),
        forall|i: int| 0 <= i < s.len() ==> #[trigger] perms_view(s)[i] == s[i]@,
    decreases s.len(),
{
    if s.len() > 0 {
        lemma_perms_view(s.subrange(0, s.len() - 1));
    }
}

pub proof fn lemma_parameters_view(s: Seq<Parameter>)
    ensures
        parameters_view(s).len() == s.len(),
        forall|i: int| 0 <= i < s.len() ==> #[trigger] parameters_view(s)[i] == s[i]@,
    decreases s.len(),
{
    if s.len() > 0 {
        lemma_parameters_view(s.subrange(0, s.len() - 1));
    }
}

// ---------------------------------------------------------------------------
// Copies
// ---------------------------------------------------------------------------

impl Perm {
    pub fn copy(&self) -> (r: Perm)
        ensures
            r@ == self@,
        decreases self,
    {
        match self {
            Perm::Given => Perm::Given,
            Perm::Shared => Perm::Shared,
            Perm::Mv(ps) => Perm::Mv(copy_places(ps)),
            Perm::Rf(ps) => Perm::Rf(copy_places(ps)),
            Perm::Mt(ps) => Perm::Mt(copy_places(ps)),
            Perm::Var(v) => Perm::Var(*v),
            Perm::Apply(l, r) => Perm::Apply(Box::new(l.copy()), Box::new(r.copy())),
            Perm::Or(ps) => {
                let mut out: Vec<Perm> = Vec::new();
                let mut i: usize = 0;
                while i < ps.len()
                    invariant
                        *self == Perm::Or(*ps),
                        i <= ps@.len(),
                        out@.len() == i,
                        forall|j: int| 0 <= j < i ==> #[trigger] out@[j]@ == ps@[j]@,
                    decreases ps.len() - i,
                {
                    proof {
                        assert(decreases_to!(*self => (*self)->Or_0));
                    }
                    out.push(ps[i].copy());
                    i = i + 1;
                }
                proof {
                    lemma_perms_view(out@);
                    lemma_perms_view(ps@);
                    assert(perms_view(out@) =~= perms_view(ps@));
                }
                Perm::Or(out)
            },
        }
    }
}

impl Ty {
    pub fn copy(&self) -> (r: Ty)
        ensures
            r@ == self@,
        decreases self,
    {
        match self {
            Ty::NamedTy(n) => {
                proof {
                    assert(decreases_to!(*self => (*self)->NamedTy_0));
                }
                Ty::NamedTy(n.copy())
            },
            Ty::Var(v) => Ty::Var(*v),
            Ty::ApplyPerm(p, t) => Ty::ApplyPerm(p.copy(), Box::new(t.copy())),
        }
    }
}

impl NamedTy {
    pub fn copy(&self) -> (r: NamedTy)
        ensures
            r@ == self@,
        decreases self,
    {
        let r = NamedTy { name: self.name.copy(), parameters: copy_parameters(&self.parameters) };
        r
    }
}

impl Parameter {
    pub fn copy(&self) -> (r: Parameter)
        ensures
            r@ == self@,
        decreases self,
    {
        match self {
            Parameter::Ty(t) => Parameter::Ty(t.copy()),
            Parameter::Perm(p) => Parameter::Perm(p.copy()),
        }
    }
}

pub fn copy_parameters(ps: &Vec<Parameter>) -> (r: Vec<Parameter>)
    ensures
        r@.len() == ps@.len(),
        parameters_view(r@) == parameters_view(ps@),
    decreases ps,
{
    let mut out: Vec<Parameter> = Vec::new();
    let mut i: usize = 0;
    while i < ps.len()
        invariant
            i <= ps@.len(),
            out@.len() == i,
            forall|j: int| 0 <= j < i ==> #[trigger] out@[j]@ == ps@[j]@,
        decreases ps.len() - i,
    {
        proof {
            assert(decreases_to!(ps => ps@));
        }
        out.push(ps[i].copy());
        i = i + 1;
    }
    proof {
        lemma_parameters_view(out@);
        lemma_parameters_view(ps@);
        assert(parameters_view(out@) =~= parameters_view(ps@));
    }
    out
}

impl Predicate {
    pub fn copy(&self) -> (r: Predicate)
        ensures
            r@ == self@,
    {
        match self {
            Predicate::Parameter(k, p) => Predicate::Parameter(*k, p.copy()),
            Predicate::Variance(k, p) => Predicate::Variance(*k, p.copy()),
        }
    }
}


// ---------------------------------------------------------------------------
// Declarations that carry types
// ---------------------------------------------------------------------------

/// Whether a field is declared `atomic`.
#[derive(PartialEq, Eq, Structural, Clone, Copy)]
pub enum Atomic {
    No,
    Yes,
}

/// A field of a class.
pub struct FieldDecl {
    pub atomic: Atomic,
    pub name: FieldId,
    pub ty: Ty,
}

pub struct SFieldDecl {
    pub atomic: Atomic,
    pub name: Seq<char>,
    pub ty: STy,
}

impl View for FieldDecl {
    type V = SFieldDecl;

    open spec fn view(&self) -> SFieldDecl {
        SFieldDecl { atomic: self.atomic, name: self.name@, ty: self.ty@ }
    }
}

/// The permission a method asks of its receiver.
pub struct ThisDecl {
    pub perm: Perm,
}

impl View for ThisDecl {
    type V = SPerm;

    open spec fn view(&self) -> SPerm {
        self.perm@
    }
}

/// A typed local variable (a method input).
pub struct LocalVariableDecl {
    pub name: ValueId,
    pub ty: Ty,
}

pub struct SLocalVariableDecl {
    pub name: Seq<char>,
    pub ty: STy,
}

impl View for LocalVariableDecl {
    type V = SLocalVariableDecl;

    open spec fn view(&self) -> SLocalVariableDecl {
        SLocalVariableDecl { name: self.name@, ty: self.ty@ }
    }
}

/// The optional type written on a `let`.
pub enum Ascription {
    NoTy,
    Ty(Ty),
}

pub enum SAscription {
    NoTy,
    Ty(STy),
}

impl View for Ascription {
    type V = SAscription;

    open spec fn view(&self) -> SAscription {
        match self {
            Ascription::NoTy => SAscription::NoTy,
            Ascription::Ty(t) => SAscription::Ty(t@),
        }
    }
}

// ---------------------------------------------------------------------------
// Expressions and statements
// ---------------------------------------------------------------------------

/// How a place is accessed.
#[derive(PartialEq, Eq, Structural, Clone, Copy)]
pub enum Access {
    /// Take a reference (`p.ref`).
    Rf,
    /// Take a mutable lease (`p.mut`).
    Mt,
    /// Give the value away (`p.give`).
    Gv,
    /// Drop the value (`p.drop`).
    Drop,
}

impl Access {
    /// The access with `Gv` weakened to `Drop`.
    pub fn give_to_drop(&self) -> (r: Access)
        ensures
            r == (if *self == Access::Gv { Access::Drop } else { *self }),
    {
        match self {
            Access::Gv => Access::Drop,
            _ => *self,
        }
    }
}

/// A binary operator.
#[derive(PartialEq, Eq, Structural, Clone, Copy)]
pub enum BinaryOp {
    Add,
    Sub,
    Mul,
    Div,
    EqEq,
    Lt,
    Le,
    Gt,
    Ge,
}

impl BinaryOp {
    pub fn is_arithmetic(&self) -> (r: bool)
        ensures
            r == (*self == BinaryOp::Add || *self == BinaryOp::Sub || *self == BinaryOp::Mul
                || *self == BinaryOp::Div),
    {
        match self {
            BinaryOp::Add | BinaryOp::Sub | BinaryOp::Mul | BinaryOp::Div => true,
            _ => false,
        }
    }

    pub fn is_comparison(&self) -> (r: bool)
        ensures
            r == !(*self == BinaryOp::Add || *self == BinaryOp::Sub || *self == BinaryOp::Mul
                || *self == BinaryOp::Div),
    {
        !self.is_arithmetic()
    }
}

/// An access to a place, like `x.f.give`.
pub struct PlaceExpr {
    pub place: Place,
    pub access: Access,
}

pub struct SPlaceExpr {
    pub place: SPlace,
    pub access: Access,
}

impl View for PlaceExpr {
    type V = SPlaceExpr;

    open spec fn view(&self) -> SPlaceExpr {
        SPlaceExpr { place: self.place@, access: self.access }
    }
}

/// An expression.
pub enum Expr {
    Block(Block),
    Integer(usize),
    True,
    False,
    BinaryOp(Box<Expr>, BinaryOp, Box<Expr>),
    Place(PlaceExpr),
    Share(Box<Expr>),
    Tuple(Vec<Expr>),
    Call(Box<Expr>, MethodId, Vec<Parameter>, Vec<Expr>),
    New(ClassName, Vec<Parameter>, Vec<Expr>),
    Clear(ValueId),
    If(Box<Expr>, Box<Expr>, Box<Expr>),
    SizeOf(Vec<Parameter>),
    ArrayNew(Vec<Parameter>, Box<Expr>),
    ArrayCapacity(Vec<Parameter>, Box<Expr>),
    ArrayGive(Vec<Parameter>, Box<Expr>, Box<Expr>),
    ArrayDrop(Vec<Parameter>, Box<Expr>, Box<Expr>, Box<Expr>),
    ArrayWrite(Vec<Parameter>, Box<Expr>, Box<Expr>, Box<Expr>),
    IsLastRef(Vec<Parameter>, Box<Expr>),
    Panic,
}

/// A statement.
pub enum Statement {
    Expr(Expr),
    Let(ValueId, Ascription, Box<Expr>),
    Reassign(Place, Expr),
    Loop(Block),
    Break,
    Return(Expr),
    Print(Expr),
}

/// A sequence of statements.
pub struct Block {
    pub statements: Vec<Statement>,
}

pub enum SExpr {
    Block(SBlock),
    Integer(usize),
    True,
    False,
    BinaryOp(Box<SExpr>, BinaryOp, Box<SExpr>),
    Place(SPlaceExpr),
    Share(Box<SExpr>),
    Tuple(Seq<SExpr>),
    Call(Box<SExpr>, Seq<char>, Seq<SParameter>, Seq<SExpr>),
    New(Seq<char>, Seq<SParameter>, Seq<SExpr>),
    Clear(Seq<char>),
    If(Box<SExpr>, Box<SExpr>, Box<SExpr>),
    SizeOf(Seq<SParameter>),
    ArrayNew(Seq<SParameter>, Box<SExpr>),
    ArrayCapacity(Seq<SParameter>, Box<SExpr>),
    ArrayGive(Seq<SParameter>, Box<SExpr>, Box<SExpr>),
    ArrayDrop(Seq<SParameter>, Box<SExpr>, Box<SExpr>, Box<SExpr>),
    ArrayWrite(Seq<SParameter>, Box<SExpr>, Box<SExpr>, Box<SExpr>),
    IsLastRef(Seq<SParameter>, Box<SExpr>),
    Panic,
}

pub enum SStatement {
    Expr(SExpr),
    Let(Seq<char>, SAscription, Box<SExpr>),
    Reassign(SPlace, SExpr),
    Loop(SBlock),
    Break,
    Return(SExpr),
    Print(SExpr),
}

pub struct SBlock {
    pub statements: Seq<SStatement>,
}

pub open spec fn expr_view(e: &Expr) -> SExpr
    decreases e,
{
    match e {
        Expr::Block(b) => SExpr::Block(block_view(b)),
        Expr::Integer(n) => SExpr::Integer(*n),
        Expr::True => SExpr::True,
        Expr::False => SExpr::False,
        Expr::BinaryOp(l, op, r) => SExpr::BinaryOp(
            Box::new(expr_view(l)),
            *op,
            Box::new(expr_view(r)),
        ),
        Expr::Place(pe) => SExpr::Place(pe@),
        Expr::Share(x) => SExpr::Share(Box::new(expr_view(x))),
        Expr::Tuple(es) => SExpr::Tuple(exprs_view(es@)),
        Expr::Call(r, m, ps, args) => SExpr::Call(
            Box::new(expr_view(r)),
            m@,
            parameters_view(ps@),
            exprs_view(args@),
        ),
        Expr::New(c, ps, args) => SExpr::New(c@, parameters_view(ps@), exprs_view(args@)),
        Expr::Clear(v) => SExpr::Clear(v@),
        Expr::If(c, t, f) => SExpr::If(
            Box::new(expr_view(c)),
            Box::new(expr_view(t)),
            Box::new(expr_view(f)),
        ),
        Expr::SizeOf(ps) => SExpr::SizeOf(parameters_view(ps@)),
        Expr::ArrayNew(ps, a) => SExpr::ArrayNew(parameters_view(ps@), Box::new(expr_view(a))),
        Expr::ArrayCapacity(ps, a) => SExpr::ArrayCapacity(
            parameters_view(ps@),
            Box::new(expr_view(a)),
        ),
        Expr::ArrayGive(ps, a, b) => SExpr::ArrayGive(
            parameters_view(ps@),
            Box::new(expr_view(a)),
            Box::new(expr_view(b)),
        ),
        Expr::ArrayDrop(ps, a, b, c) => SExpr::ArrayDrop(
            parameters_view(ps@),
            Box::new(expr_view(a)),
            Box::new(expr_view(b)),
            Box::new(expr_view(c)),
        ),
        Expr::ArrayWrite(ps, a, b, c) => SExpr::ArrayWrite(
            parameters_view(ps@),
            Box::new(expr_view(a)),
            Box::new(expr_view(b)),
            Box::new(expr_view(c)),
        ),
        Expr::IsLastRef(ps, a) => SExpr::IsLastRef(parameters_view(ps@), Box::new(expr_view(a))),
        Expr::Panic => SExpr::Panic,
    }
}

pub open spec fn exprs_view(s: Seq<Expr>) -> Seq<SExpr>
    decreases s,
{
    if s.len() == 0 {
        Seq::empty()
    } else {
        exprs_view(s.subrange(0, s.len() - 1)).push(expr_view(&s[s.len() - 1]))
    }
}

pub open spec fn block_view(b: &Block) -> SBlock
    decreases b,
{
    SBlock { statements: statements_view(b.statements@) }
}

pub open spec fn statement_view(st: &Statement) -> SStatement
    decreases st,
{
    match st {
        Statement::Expr(e) => SStatement::Expr(expr_view(e)),
        Statement::Let(v, a, e) => SStatement::Let(v@, a@, Box::new(expr_view(e))),
        Statement::Reassign(p, e) => SStatement::Reassign(p@, expr_view(e)),
        Statement::Loop(b) => SStatement::Loop(block_view(b)),
        Statement::Break => SStatement::Break,
        Statement::Return(e) => SStatement::Return(expr_view(e)),
        Statement::Print(e) => SStatement::Print(expr_view(e)),
    }
}

pub open spec fn statements_view(s: Seq<Statement>) -> Seq<SStatement>
    decreases s,
{
    if s.len() == 0 {
        Seq::empty()
    } else {
        statements_view(s.subrange(0, s.len() - 1)).push(statement_view(&s[s.len() - 1]))
    }
}

impl View for Expr {
    type V = SExpr;

    open spec fn view(&self) -> SExpr {
        expr_view(self)
    }
}

impl View for Statement {
    type V = SStatement;

    open spec fn view(&self) -> SStatement {
        statement_view(self)
    }
}

impl View for Block {
    type V = SBlock;

    open spec fn view(&self) -> SBlock {
        block_view(self)
    }
}

pub proof fn lemma_exprs_view(s: Seq<Expr>)
    ensures
        exprs_view(s).len() == s.len(),
        forall|i: int| 0 <= i < s.len() ==> #[trigger] exprs_view(s)[i] == s[i]@,
    decreases s.len(),
{
    if s.len() > 0 {
        lemma_exprs_view(s.subrange(0, s.len() - 1));
    }
}

pub proof fn lemma_statements_view(s: Seq<Statement>)
    ensures
        statements_view(s).len() == s.len(),
        forall|i: int| 0 <= i < s.len() ==> #[trigger] statements_view(s)[i] == s[i]@,
    decreases s.len(),
{
    if s.len() > 0 {
        lemma_statements_view(s.subrange(0, s.len() - 1));
    }
}

impl Ascription {
    pub fn copy(&self) -> (r: Ascription)
        ensures
            r@ == self@,
    {
        match self {
            Ascription::NoTy => Ascription::NoTy,
            Ascription::Ty(t) => Ascription::Ty(t.copy()),
        }
    }
}

impl PlaceExpr {
    pub fn copy(&self) -> (r: PlaceExpr)
        ensures
            r@ == self@,
    {
        PlaceExpr { place: self.place.copy(), access: self.access }
    }
}

/// Copies each expression.
pub fn copy_exprs(es: &Vec<Expr>) -> (r: Vec<Expr>)
    ensures
        exprs_view(r@) == exprs_view(es@),
    decreases es,
{
    let mut out: Vec<Expr> = Vec::new();
    let mut i: usize = 0;
    while i < es.len()
        invariant
            i <= es@.len(),
            out@.len() == i,
            forall|j: int| 0 <= j < i ==> #[trigger] out@[j]@ == es@[j]@,
        decreases es.len() - i,
    {
        proof {
            assert(decreases_to!(es => es@));
        }
        out.push(es[i].copy());
        i = i + 1;
    }
    proof {
        lemma_exprs_view(out@);
        lemma_exprs_view(es@);
        assert(exprs_view(out@) =~= exprs_view(es@));
    }
    out
}

impl Expr {
    pub fn copy(&self) -> (r: Expr)
        ensures
            r@ == self@,
        decreases self,
    {
        match self {
            Expr::Block(b) => Expr::Block(b.copy()),
            Expr::Integer(n) => Expr::Integer(*n),
            Expr::True => Expr::True,
            Expr::False => Expr::False,
            Expr::BinaryOp(l, op, r) => Expr::BinaryOp(Box::new(l.copy()), *op, Box::new(r.copy())),
            Expr::Place(pe) => Expr::Place(pe.copy()),
            Expr::Share(x) => Expr::Share(Box::new(x.copy())),
            Expr::Tuple(es) => Expr::Tuple(copy_exprs(es)),
            Expr::Call(r, m, ps, args) => Expr::Call(Box::new(r.copy()), m.copy(), copy_parameters(ps), copy_exprs(args)),
            Expr::New(c, ps, args) => Expr::New(c.copy(), copy_parameters(ps), copy_exprs(args)),
            Expr::Clear(v) => Expr::Clear(v.copy()),
            Expr::If(c, t, f) => Expr::If(Box::new(c.copy()), Box::new(t.copy()), Box::new(f.copy())),
            Expr::SizeOf(ps) => Expr::SizeOf(copy_parameters(ps)),
            Expr::ArrayNew(ps, a) => Expr::ArrayNew(copy_parameters(ps), Box::new(a.copy())),
            Expr::ArrayCapacity(ps, a) => Expr::ArrayCapacity(copy_parameters(ps), Box::new(a.copy())),
            Expr::ArrayGive(ps, a, b) => Expr::ArrayGive(copy_parameters(ps), Box::new(a.copy()), Box::new(b.copy())),
            Expr::ArrayDrop(ps, a, b, c) => Expr::ArrayDrop(
                copy_parameters(ps),
                Box::new(a.copy()),
                Box::new(b.copy()),
                Box::new(c.copy()),
            ),
            Expr::ArrayWrite(ps, a, b, c) => Expr::ArrayWrite(
                copy_parameters(ps),
                Box::new(a.copy()),
                Box::new(b.copy()),
                Box::new(c.copy()),
            ),
            Expr::IsLastRef(ps, a) => Expr::IsLastRef(copy_parameters(ps), Box::new(a.copy())),
            Expr::Panic => Expr::Panic,
        }
    }
}

impl Statement {
    pub fn copy(&self) -> (r: Statement)
        ensures
            r@ == self@,
        decreases self,
    {
        match self {
            Statement::Expr(e) => Statement::Expr(e.copy()),
            Statement::Let(v, a, e) => Statement::Let(v.copy(), a.copy(), Box::new(e.copy())),
            Statement::Reassign(p, e) => Statement::Reassign(p.copy(), e.copy()),
            Statement::Loop(b) => Statement::Loop(b.copy()),
            Statement::Break => Statement::Break,
            Statement::Return(e) => Statement::Return(e.copy()),
            Statement::Print(e) => Statement::Print(e.copy()),
        }
    }
}

impl Block {
    pub fn copy(&self) -> (r: Block)
        ensures
            r@ == self@,
        decreases self,
    {
        let mut out: Vec<Statement> = Vec::new();
        let mut i: usize = 0;
        while i < self.statements.len()
            invariant
                i <= self.statements@.len(),
                out@.len() == i,
                forall|j: int| 0 <= j < i ==> #[trigger] out@[j]@ == self.statements@[j]@,
            decreases self.statements.len() - i,
        {
            proof {
                assert(decreases_to!(self => self.statements));
                assert(decreases_to!(self.statements => self.statements@));
            }
            out.push(self.statements[i].copy());
            i = i + 1;
        }
        proof {
            lemma_statements_view(out@);
            lemma_statements_view(self.statements@);
            assert(statements_view(out@) =~= statements_view(self.statements@));
        }
        Block { statements: out }
    }
}

// ---------------------------------------------------------------------------
// Methods, classes and programs
// ---------------------------------------------------------------------------

/// The body of a method.
pub enum MethodBody {
    Trusted,
    Block(Block),
}

pub enum SMethodBody {
    Trusted,
    Block(SBlock),
}

impl View for MethodBody {
    type V = SMethodBody;

    open spec fn view(&self) -> SMethodBody {
        match self {
            MethodBody::Trusted => SMethodBody::Trusted,
            MethodBody::Block(b) => SMethodBody::Block(b@),
        }
    }
}

/// The body of a class's drop method.
pub struct DropBody {
    pub block: Block,
}

impl View for DropBody {
    type V = SBlock;

    open spec fn view(&self) -> SBlock {
        self.block@
    }
}

/// The part of a method declaration under its generic binder.
pub struct MethodDeclBoundData {
    pub this: ThisDecl,
    pub inputs: Vec<LocalVariableDecl>,
    pub output: Ty,
    pub predicates: Vec<Predicate>,
    pub body: MethodBody,
}

pub struct SMethodDeclBoundData {
    pub this: SPerm,
    pub inputs: Seq<SLocalVariableDecl>,
    pub output: STy,
    pub predicates: Seq<SPredicate>,
    pub body: SMethodBody,
}

impl View for MethodDeclBoundData {
    type V = SMethodDeclBoundData;

    open spec fn view(&self) -> SMethodDeclBoundData {
        SMethodDeclBoundData {
            this: self.this@,
            inputs: self.inputs@.map_values(|d: LocalVariableDecl| d@),
            output: self.output@,
            predicates: self.predicates@.map_values(|p: Predicate| p@),
            body: self.body@,
        }
    }
}

/// A term under a binder of generic parameters of the given kinds.
pub struct Binder<T> {
    pub kinds: Vec<Kind>,
    pub term: T,
}

/// A method declaration.
pub struct MethodDecl {
    pub name: MethodId,
    pub binder: Binder<MethodDeclBoundData>,
}

pub struct SMethodDecl {
    pub name: Seq<char>,
    pub kinds: Seq<Kind>,
    pub data: SMethodDeclBoundData,
}

impl View for MethodDecl {
    type V = SMethodDecl;

    open spec fn view(&self) -> SMethodDecl {
        SMethodDecl { name: self.name@, kinds: self.binder.kinds@, data: self.binder.term@ }
    }
}

/// What a class declares about how its values may be shared.
#[derive(PartialEq, Eq, Structural, Clone, Copy)]
pub enum ClassPredicate {
    Given,
    Share,
    Shared,
}

/// The part of a class declaration under its generic binder.
pub struct ClassDeclBoundData {
    pub predicates: Vec<Predicate>,
    pub fields: Vec<FieldDecl>,
    pub methods: Vec<MethodDecl>,
    pub drop_body: DropBody,
}

pub struct SClassDeclBoundData {
    pub predicates: Seq<SPredicate>,
    pub fields: Seq<SFieldDecl>,
    pub methods: Seq<SMethodDecl>,
    pub drop_body: SBlock,
}

impl View for ClassDeclBoundData {
    type V = SClassDeclBoundData;

    open spec fn view(&self) -> SClassDeclBoundData {
        SClassDeclBoundData {
            predicates: self.predicates@.map_values(|p: Predicate| p@),
            fields: self.fields@.map_values(|f: FieldDecl| f@),
            methods: self.methods@.map_values(|m: MethodDecl| m@),
            drop_body: self.drop_body@,
        }
    }
}

/// A class declaration.
pub struct ClassDecl {
    pub class_predicate: ClassPredicate,
    pub name: ClassName,
    pub binder: Binder<ClassDeclBoundData>,
}

pub struct SClassDecl {
    pub class_predicate: ClassPredicate,
    pub name: Seq<char>,
    pub kinds: Seq<Kind>,
    pub data: SClassDeclBoundData,
}

impl View for ClassDecl {
    type V = SClassDecl;

    open spec fn view(&self) -> SClassDecl {
        SClassDecl {
            class_predicate: self.class_predicate,
            name: self.name@,
            kinds: self.binder.kinds@,
            data: self.binder.term@,
        }
    }
}

/// A program: a list of class declarations.
pub struct Program {
    pub classes: Vec<ClassDecl>,
}

impl View for Program {
    type V = Seq<SClassDecl>;

    open spec fn view(&self) -> Seq<SClassDecl> {
        self.classes@.map_values(|c: ClassDecl| c@)
    }
}

/// The index of the first class of `classes` named `name`, or -1.
pub closed spec fn class_index(classes: Seq<SClassDecl>, name: Seq<char>) -> int {
    if exists|i: int| 0 <= i < classes.len() && classes[i].name == name && (forall|j: int|
        0 <= j < i ==> classes[j].name != name) {
        choose|i: int| 0 <= i < classes.len() && classes[i].name == name && (forall|j: int|
            0 <= j < i ==> classes[j].name != name)
    } else {
        -1
    }
}

impl Program {
    /// The first class declared with the given name, if any.
    pub fn class_named(&self, name: &ClassName) -> (r: Option<&ClassDecl>)
        ensures
            class_index(self@, name@) >= -1,
            class_index(self@, name@) < self@.len(),
            class_index(self@, name@) == -1 ==> r is None,
            class_index(self@, name@) >= 0 ==> (r matches Some(c) && c@ == self@[class_index(self@, name@)]),
    {
        let ghost cs = self@;
        let mut i: usize = 0;
        while i < self.classes.len()
            invariant
                cs == self@,
                cs.len() == self.classes@.len(),
                i <= self.classes@.len(),
                forall|j: int| 0 <= j < i ==> cs[j].name != name@,
            decreases self.classes.len() - i,
        {
            assert(cs[i as int] == self.classes@[i as int]@);
            if self.classes[i].name.same(name) {
                proof {
                    let w = choose|k: int| 0 <= k < cs.len() && cs[k].name == name@ && (forall|j: int| 0 <= j < k ==> cs[j].name != name@);
                    assert(0 <= i < cs.len() && cs[i as int].name == name@ && (forall|j: int| 0 <= j < i ==> cs[j].name != name@));
                    if w < i {
                    } else if w > i {
                        assert(cs[i as int].name != name@);
                    }
                }
                return Some(&self.classes[i]);
            }
            i = i + 1;
        }
        None
    }
}

} // verus!
