//! The typing environment: the program, the generic variables in scope,
//! the types of local variables and the assumed predicates.
use std::sync::Arc;
use vstd::prelude::*;

use crate::errors::{STypeError, TypeError};
use crate::in_flight::{
    put_one, transform_predicate, transform_predicate_exec, transform_ty, transform_ty_exec, transform_wf,
    InFlight, STransform, Transform,
};
use crate::grammar::{
    class_index, ClassDecl, Kind, LocalVariableDecl, Parameter, ParameterPredicate, Perm,
    Predicate, Program, SClassDecl, SParameter, SPerm, SPredicate, STy, STypeName, SVar, Ty,
    TypeName, UniversalVar, Var, Variable, VarianceKind, Place, var_place,
};

verus! {

/// The number of universal variables created so far.
#[derive(PartialEq, Eq, Structural, Clone, Copy)]
pub struct Universe(pub usize);

/// The typing environment.
pub struct Env {
    program: Arc<Program>,
    universe: Universe,
    in_scope_vars: Vec<Variable>,
    local_variables: Vec<(Var, Ty)>,
    assumptions: Vec<Predicate>,
    fresh: usize,
}

pub struct SEnv {
    pub program: Seq<SClassDecl>,
    /// The number of universal variables created so far.
    pub universe: usize,
    pub in_scope_vars: Seq<Variable>,
    pub local_variables: Map<SVar, STy>,
    pub assumptions: Set<SPredicate>,
    /// The number of fresh temporaries pushed and not yet popped.
    pub fresh: usize,
}

/// The map described by a list of (variable, type) entries; later entries win.
pub open spec fn locals_map(s: Seq<(Var, Ty)>) -> Map<SVar, STy>
    decreases s.len(),
{
    if s.len() == 0 {
        Map::empty()
    } else {
        locals_map(s.drop_last()).insert(s.last().0@, s.last().1@)
    }
}

pub open spec fn predicates_set(s: Seq<Predicate>) -> Set<SPredicate> {
    s.map_values(|p: Predicate| p@).to_set()
}

impl View for Env {
    type V = SEnv;

    closed spec fn view(&self) -> SEnv {
        SEnv {
            program: self.program@,
            universe: self.universe.0,
            in_scope_vars: self.in_scope_vars@,
            local_variables: locals_map(self.local_variables@),
            assumptions: predicates_set(self.assumptions@),
            fresh: self.fresh,
        }
    }
}

proof fn lemma_locals_map(s: Seq<(Var, Ty)>, k: SVar)
    ensures
        locals_map(s).dom().contains(k) <==> exists|i: int| 0 <= i < s.len() && #[trigger] s[i].0@ == k,
    decreases s.len(),
{
    if s.len() > 0 {
        let d = s.drop_last();
        lemma_locals_map(d, k);
        if exists|i: int| 0 <= i < d.len() && #[trigger] d[i].0@ == k {
            let i = choose|i: int| 0 <= i < d.len() && #[trigger] d[i].0@ == k;
            assert(s[i].0@ == k);
        }
        if exists|i: int| 0 <= i < s.len() && #[trigger] s[i].0@ == k {
            let i = choose|i: int| 0 <= i < s.len() && #[trigger] s[i].0@ == k;
            if i < d.len() {
                assert(d[i].0@ == k);
            }
        }
    }
}

/// The entry at index `i` is the last one for its variable: the map gives its type.
proof fn lemma_locals_map_last(s: Seq<(Var, Ty)>, i: int)
    requires
        0 <= i < s.len(),
        forall|j: int| i < j < s.len() ==> #[trigger] s[j].0@ != s[i].0@,
    ensures
        locals_map(s).dom().contains(s[i].0@),
        locals_map(s)[s[i].0@] == s[i].1@,
    decreases s.len(),
{
    if i < s.len() - 1 {
        let d = s.drop_last();
        assert forall|j: int| i < j < d.len() implies #[trigger] d[j].0@ != d[i].0@ by {
            assert(s[j].0@ != s[i].0@);
        }
        lemma_locals_map_last(d, i);
        assert(s.last().0@ != s[i].0@);
    }
}

proof fn lemma_predicates_set_push(s: Seq<Predicate>, p: Predicate)
    ensures
        predicates_set(s.push(p)) == predicates_set(s).insert(p@),
{
    let a = s.push(p).map_values(|q: Predicate| q@);
    let b = s.map_values(|q: Predicate| q@);
    assert(a =~= b.push(p@));
    assert forall|x: SPredicate| a.contains(x) <==> (b.contains(x) || x == p@) by {
        if a.contains(x) {
            let i = choose|i: int| 0 <= i < a.len() && a[i] == x;
            if i < b.len() {
                assert(b[i] == x);
            }
        }
        if b.contains(x) {
            let i = choose|i: int| 0 <= i < b.len() && b[i] == x;
            assert(a[i] == x);
        }
        if x == p@ {
            assert(a[b.len() as int] == x);
        }
    }
    assert(predicates_set(s.push(p)) =~= predicates_set(s).insert(p@));
}

/// A universal variable used as a parameter of its own kind.
pub open spec fn var_parameter(v: UniversalVar) -> SParameter {
    match v.kind {
        Kind::Ty => SParameter::Ty(STy::Var(Variable::UniversalVar(v))),
        Kind::Perm => SParameter::Perm(SPerm::Var(Variable::UniversalVar(v))),
    }
}

/// The predicate `p(v)`.
pub open spec fn var_predicate(v: UniversalVar, p: ParameterPredicate) -> SPredicate {
    SPredicate::Parameter(p, var_parameter(v))
}

/// True if `name` names a class of the program.
pub open spec fn is_class_name(program: Seq<SClassDecl>, name: STypeName) -> bool {
    match name {
        STypeName::Id(n) => class_index(program, n) >= 0,
        _ => false,
    }
}

/// True if `name` names a value type (a tuple, an integer or a boolean).
pub open spec fn is_value_name(name: STypeName) -> bool {
    !(name is Id)
}

fn copy_locals(s: &Vec<(Var, Ty)>) -> (r: Vec<(Var, Ty)>)
    ensures
        r@.len() == s@.len(),
        forall|i: int| 0 <= i < s@.len() ==> #[trigger] r@[i].0@ == s@[i].0@ && r@[i].1@ == s@[i].1@,
        locals_map(r@) == locals_map(s@),
{
    let mut r: Vec<(Var, Ty)> = Vec::new();
    let mut i: usize = 0;
    while i < s.len()
        invariant
            i <= s@.len(),
            r@.len() == i,
            forall|j: int| 0 <= j < i ==> #[trigger] r@[j].0@ == s@[j].0@ && r@[j].1@ == s@[j].1@,
        decreases s.len() - i,
    {
        r.push((s[i].0.copy(), s[i].1.copy()));
        i = i + 1;
    }
    proof {
        lemma_locals_map_pointwise(r@, s@);
    }
    r
}

proof fn lemma_locals_map_pointwise(a: Seq<(Var, Ty)>, b: Seq<(Var, Ty)>)
    requires
        a.len() == b.len(),
        forall|i: int| 0 <= i < a.len() ==> #[trigger] a[i].0@ == b[i].0@ && a[i].1@ == b[i].1@,
    ensures
        locals_map(a) == locals_map(b),
    decreases a.len(),
{
    if a.len() > 0 {
        lemma_locals_map_pointwise(a.drop_last(), b.drop_last());
        assert(a.last().0@ == b.last().0@);
    }
}

fn copy_predicates(s: &Vec<Predicate>) -> (r: Vec<Predicate>)
    ensures
        r@.len() == s@.len(),
        forall|i: int| 0 <= i < s@.len() ==> #[trigger] r@[i]@ == s@[i]@,
        predicates_set(r@) == predicates_set(s@),
{
    let mut r: Vec<Predicate> = Vec::new();
    let mut i: usize = 0;
    while i < s.len()
        invariant
            i <= s@.len(),
            r@.len() == i,
            forall|j: int| 0 <= j < i ==> #[trigger] r@[j]@ == s@[j]@,
        decreases s.len() - i,
    {
        r.push(s[i].copy());
        i = i + 1;
    }
    assert(r@.map_values(|p: Predicate| p@) =~= s@.map_values(|p: Predicate| p@));
    r
}

impl Env {
    /// An empty environment for checking code of `program`.
    pub fn new(program: Arc<Program>) -> (r: Env)
        ensures
            r@.program == program@,
            r@.universe == 0,
            r@.in_scope_vars == Seq::<Variable>::empty(),
            r@.local_variables == Map::<SVar, STy>::empty(),
            r@.assumptions == Set::<SPredicate>::empty(),
            r@.fresh == 0,
    {
        let r = Env {
            program,
            universe: Universe(0),
            in_scope_vars: Vec::new(),
            local_variables: Vec::new(),
            assumptions: Vec::new(),
            fresh: 0,
        };
        assert(r@.assumptions =~= Set::<SPredicate>::empty());
        r
    }

    /// A copy of this environment.
    pub fn copy(&self) -> (r: Env)
        ensures
            r@ == self@,
    {
        let r = Env {
            program: self.program.clone(),
            universe: self.universe,
            in_scope_vars: self.in_scope_vars.clone(),
            local_variables: copy_locals(&self.local_variables),
            assumptions: copy_predicates(&self.assumptions),
            fresh: self.fresh,
        };
        assert(r.in_scope_vars@ =~= self.in_scope_vars@);
        r
    }

    /// The program being checked.
    pub fn program(&self) -> (r: &Program)
        ensures
            r@ == self@.program,
    {
        &self.program
    }

    /// The predicates assumed to hold.
    pub fn assumptions(&self) -> (r: &Vec<Predicate>)
        ensures
            predicates_set(r@) == self@.assumptions,
    {
        &self.assumptions
    }

    /// Adds assumed predicates.
    pub fn add_assumptions(&mut self, assumptions: Vec<Predicate>)
        ensures
            final(self)@ == (SEnv {
                assumptions: old(self)@.assumptions + predicates_set(assumptions@),
                ..old(self)@
            }),
    {
        let ghost start = predicates_set(self.assumptions@);
        let mut i: usize = 0;
        proof {
            assert(assumptions@.subrange(0, 0).map_values(|p: Predicate| p@).to_set() =~= Set::<SPredicate>::empty());
            assert(start + Set::<SPredicate>::empty() =~= start);
        }
        while i < assumptions.len()
            invariant
                i <= assumptions@.len(),
                predicates_set(self.assumptions@) == start + predicates_set(assumptions@.subrange(0, i as int)),
                self.universe == old(self).universe,
                self.fresh == old(self).fresh,
                self.program == old(self).program,
                self.in_scope_vars == old(self).in_scope_vars,
                self.local_variables == old(self).local_variables,
            decreases assumptions.len() - i,
        {
            let p = assumptions[i].copy();
            proof {
                lemma_predicates_set_push(self.assumptions@, p);
                assert(assumptions@.subrange(0, i + 1) =~= assumptions@.subrange(0, i as int).push(assumptions@[i as int]));
                lemma_predicates_set_push(assumptions@.subrange(0, i as int), assumptions@[i as int]);
            }
            self.assumptions.push(p);
            i = i + 1;
            proof {
                assert(predicates_set(self.assumptions@) =~= start + predicates_set(assumptions@.subrange(0, i as int)));
            }
        }
        proof {
            assert(assumptions@.subrange(0, i as int) =~= assumptions@);
        }
    }

    /// True if it is assumed that `var` satisfies `p`.
    pub fn is(&self, var: &UniversalVar, p: ParameterPredicate) -> (r: bool)
        ensures
            r == self@.assumptions.contains(var_predicate(*var, p)),
    {
        proof {
            assert(self@.assumptions == predicates_set(self.assumptions@));
        }
        let ghost target = var_predicate(*var, p);
        let ghost av = self.assumptions@.map_values(|q: Predicate| q@);
        let v = Variable::UniversalVar(*var);
        let mut i: usize = 0;
        while i < self.assumptions.len()
            invariant
                av == self.assumptions@.map_values(|q: Predicate| q@),
                target == var_predicate(*var, p),
                v == Variable::UniversalVar(*var),
                i <= self.assumptions@.len(),
                forall|j: int| 0 <= j < i ==> av[j] != target,
            decreases self.assumptions.len() - i,
        {
            assert(av[i as int] == self.assumptions@[i as int]@);
            let pred = &self.assumptions[i];
            let hit = match pred {
                Predicate::Parameter(k, param) => match param {
                    Parameter::Ty(t) => match t {
                        Ty::Var(x) => {
                            assert(t@ == STy::Var(*x));
                            assert(param@ == SParameter::Ty(STy::Var(*x)));
                            assert(pred@ == SPredicate::Parameter(*k, SParameter::Ty(STy::Var(*x))));
                            let h = *k == p && *x == v && var.kind == Kind::Ty;
                            assert(h == (pred@ == target));
                            h
                        },
                        Ty::NamedTy(_) => {
                            assert(t@ is NamedTy);
                            false
                        },
                        Ty::ApplyPerm(..) => {
                            assert(t@ is ApplyPerm);
                            false
                        },
                    },
                    Parameter::Perm(q) => match q {
                        Perm::Var(x) => {
                            assert(q@ == SPerm::Var(*x));
                            assert(pred@ == SPredicate::Parameter(*k, SParameter::Perm(SPerm::Var(*x))));
                            let h = *k == p && *x == v && var.kind == Kind::Perm;
                            assert(h == (pred@ == target));
                            h
                        },
                        _ => {
                            assert(!(q@ is Var));
                            false
                        },
                    },
                },
                Predicate::Variance(..) => false,
            };
            assert(hit == (av[i as int] == target));
            if hit {
                assert(av.contains(target));
                return true;
            }
            assert(av[i as int] != target);
            i = i + 1;
        }
        false
    }

    /// The number of fresh temporaries pushed and not yet popped.
    pub fn fresh(&self) -> (r: usize)
        ensures
            r == self@.fresh,
    {
        self.fresh
    }

    /// True if `name` is the name of a class (rather than of a value type).
    pub fn is_class_ty(&self, name: &TypeName) -> (r: bool)
        ensures
            r == is_class_name(self@.program, name@),
    {
        match name {
            TypeName::Id(n) => {
                let prog: &Program = &self.program;
                assert(self@.program == prog@);
                let c = prog.class_named(n);
                assert(name@ == STypeName::Id(n@));
                c.is_some()
            },
            _ => false,
        }
    }

    /// True if `name` is the name of a value type (rather than of a class).
    pub fn is_value_ty(&self, name: &TypeName) -> (r: bool)
        ensures
            r == is_value_name(name@),
    {
        match name {
            TypeName::Id(_) => false,
            _ => true,
        }
    }

    /// The declared variances of each generic parameter of the named type.
    pub fn variances(&self, tyname: &TypeName) -> (r: Result<Vec<Vec<VarianceKind>>, TypeError>)
        ensures
            match tyname@ {
                STypeName::Tuple(n) => r matches Ok(vs) && vs@.len() == n && forall|i: int|
                    0 <= i < n ==> #[trigger] vs@[i]@.len() == 0,
                STypeName::Int | STypeName::Bool => r matches Ok(vs) && vs@.len() == 0,
                STypeName::Id(name) => if class_index(self@.program, name) >= 0 {
                    r matches Ok(vs) && vs@.len() == self@.program[class_index(self@.program, name)].kinds.len()
                        && forall|i: int| 0 <= i < vs@.len() ==> #[trigger] vs@[i]@ == crate::classes::variances_for(
                            self@.program[class_index(self@.program, name)].data.predicates,
                            crate::classes::class_var(i, self@.program[class_index(self@.program, name)].kinds[i]),
                        )
                } else {
                    r matches Err(e) && e@ == STypeError::NoSuchClass(name)
                },
            },
    {
        match tyname {
            TypeName::Tuple(n) => {
                let mut vs: Vec<Vec<VarianceKind>> = Vec::new();
                let mut i: usize = 0;
                while i < *n
                    invariant
                        i <= *n,
                        vs@.len() == i,
                        forall|j: int| 0 <= j < i ==> #[trigger] vs@[j]@.len() == 0,
                    decreases *n - i,
                {
                    vs.push(Vec::new());
                    i = i + 1;
                }
                Ok(vs)
            },
            TypeName::Int | TypeName::Bool => Ok(Vec::new()),
            TypeName::Id(name) => match self.program.class_named(name) {
                Some(decl) => Ok(decl.variances()),
                None => Err(TypeError::NoSuchClass(name.copy())),
            },
        }
    }

    /// True if the generic variable `v` may be named here: universal
    /// variables must have been introduced, inference variables never may,
    /// bound variables always may.
    pub fn var_in_scope(&self, v: Variable) -> (r: bool)
        ensures
            r == match v {
                Variable::UniversalVar(u) => self@.in_scope_vars.contains(v) && u.var_index < self@.universe,
                Variable::ExistentialVar(_) => false,
                Variable::BoundVar(_) => true,
            },
    {
        match v {
            Variable::UniversalVar(u) => {
                let mut found = false;
                let mut i: usize = 0;
                while i < self.in_scope_vars.len()
                    invariant
                        i <= self.in_scope_vars@.len(),
                        found == exists|j: int| 0 <= j < i && self.in_scope_vars@[j] == v,
                    decreases self.in_scope_vars.len() - i,
                {
                    if self.in_scope_vars[i] == v {
                        found = true;
                    }
                    i = i + 1;
                }
                found && u.var_index < self.universe.0
            },
            Variable::ExistentialVar(_) => false,
            Variable::BoundVar(_) => true,
        }
    }

    /// The type of the local variable `var`.
    pub fn var_ty(&self, var: &Var) -> (r: Result<&Ty, TypeError>)
        ensures
            self@.local_variables.dom().contains(var@) ==> (r matches Ok(t) && t@ == self@.local_variables[var@]),
            !self@.local_variables.dom().contains(var@) ==> (r matches Err(e) && e@ == STypeError::NoSuchVariable(var@)),
    {
        let ghost s = self.local_variables@;
        let mut i: usize = self.local_variables.len();
        while i > 0
            invariant
                s == self.local_variables@,
                i <= s.len(),
                forall|j: int| i <= j < s.len() ==> #[trigger] s[j].0@ != var@,
            decreases i,
        {
            i = i - 1;
            if self.local_variables[i].0.same(var) {
                proof {
                    lemma_locals_map_last(s, i as int);
                }
                return Ok(&self.local_variables[i].1);
            }
        }
        proof {
            lemma_locals_map(s, var@);
        }
        Err(TypeError::NoSuchVariable(var.copy()))
    }

    /// True if a local variable named `var` is in scope.
    pub fn has_local(&self, var: &Var) -> (r: bool)
        ensures
            r == self@.local_variables.dom().contains(var@),
    {
        self.var_ty(var).is_ok()
    }

    /// Creates a fresh universal variable of the given kind.
    fn push_next_universal_var(&mut self, kind: Kind) -> (r: UniversalVar)
        requires
            old(self)@.universe < usize::MAX,
        ensures
            r == (UniversalVar { kind, var_index: old(self)@.universe }),
            final(self)@ == (SEnv {
                universe: (old(self)@.universe + 1) as usize,
                in_scope_vars: old(self)@.in_scope_vars.push(Variable::UniversalVar(r)),
                ..old(self)@
            }),
    {
        let var = UniversalVar { kind, var_index: self.universe.0 };
        self.in_scope_vars.push(Variable::UniversalVar(var));
        self.universe = Universe(self.universe.0 + 1);
        var
    }

    /// Creates fresh universal variables of the given kinds, in order.
    pub fn open_universal_vars(&mut self, kinds: &Vec<Kind>) -> (r: Vec<UniversalVar>)
        requires
            old(self)@.universe + kinds@.len() <= usize::MAX,
        ensures
            r@.len() == kinds@.len(),
            forall|i: int| 0 <= i < r@.len() ==> #[trigger] r@[i] == (UniversalVar {
                kind: kinds@[i],
                var_index: (old(self)@.universe + i) as usize,
            }),
            final(self)@ == (SEnv {
                universe: (old(self)@.universe + kinds@.len()) as usize,
                in_scope_vars: old(self)@.in_scope_vars + r@.map_values(|u: UniversalVar| Variable::UniversalVar(u)),
                ..old(self)@
            }),
    {
        let mut r: Vec<UniversalVar> = Vec::new();
        let mut i: usize = 0;
        while i < kinds.len()
            invariant
                i <= kinds@.len(),
                r@.len() == i,
                old(self)@.universe + kinds@.len() <= usize::MAX,
                forall|j: int| 0 <= j < i ==> #[trigger] r@[j] == (UniversalVar {
                    kind: kinds@[j],
                    var_index: (old(self)@.universe + j) as usize,
                }),
                self@ == (SEnv {
                    universe: (old(self)@.universe + i) as usize,
                    in_scope_vars: old(self)@.in_scope_vars + r@.map_values(|u: UniversalVar| Variable::UniversalVar(u)),
                    ..old(self)@
                }),
            decreases kinds.len() - i,
        {
            let v = self.push_next_universal_var(kinds[i]);
            r.push(v);
            i = i + 1;
            assert(self@.in_scope_vars =~= old(self)@.in_scope_vars + r@.map_values(|u: UniversalVar| Variable::UniversalVar(u)));
        }
        r
    }

    /// Introduces a local variable; fails if one of that name is already in
    /// scope (shadowing is not supported, so that places in types stay unambiguous).
    pub fn push_local_variable(&mut self, var: Var, ty: Ty) -> (r: Result<(), TypeError>)
        ensures
            old(self)@.local_variables.dom().contains(var@) ==> (r matches Err(e) && e@ == STypeError::ShadowedVariable(var@)
                && final(self)@ == old(self)@),
            !old(self)@.local_variables.dom().contains(var@) ==> (r is Ok && final(self)@ == (SEnv {
                local_variables: old(self)@.local_variables.insert(var@, ty@),
                ..old(self)@
            })),
    {
        if self.has_local(&var) {
            return Err(TypeError::ShadowedVariable(var));
        }
        let ghost before = self.local_variables@;
        self.local_variables.push((var, ty));
        proof {
            assert(self.local_variables@.drop_last() =~= before);
        }
        Ok(())
    }

    /// Introduces the local variable declared by `v`.
    pub fn push_local_variable_decl(&mut self, v: &LocalVariableDecl) -> (r: Result<(), TypeError>)
        ensures
            old(self)@.local_variables.dom().contains(SVar::Id(v.name@)) ==> (r matches Err(e)
                && e@ == STypeError::ShadowedVariable(SVar::Id(v.name@)) && final(self)@ == old(self)@),
            !old(self)@.local_variables.dom().contains(SVar::Id(v.name@)) ==> (r is Ok && final(self)@ == (SEnv {
                local_variables: old(self)@.local_variables.insert(SVar::Id(v.name@), v.ty@),
                ..old(self)@
            })),
    {
        self.push_local_variable(Var::Id(v.name.copy()), v.ty.copy())
    }
}


/// Removing all entries for `k` from a list removes `k` from its map.
fn remove_local(s: &Vec<(Var, Ty)>, k: &Var) -> (r: Vec<(Var, Ty)>)
    ensures
        locals_map(r@) == locals_map(s@).remove(k@),
{
    let mut r: Vec<(Var, Ty)> = Vec::new();
    let mut i: usize = 0;
    proof {
        assert(locals_map(s@.subrange(0, 0)) =~= Map::<SVar, STy>::empty());
        assert(Map::<SVar, STy>::empty().remove(k@) =~= Map::<SVar, STy>::empty());
    }
    while i < s.len()
        invariant
            i <= s@.len(),
            locals_map(r@) == locals_map(s@.subrange(0, i as int)).remove(k@),
        decreases s.len() - i,
    {
        let ghost before = r@;
        let ghost sub = s@.subrange(0, i + 1);
        assert(sub.drop_last() =~= s@.subrange(0, i as int));
        if !s[i].0.same(k) {
            r.push((s[i].0.copy(), s[i].1.copy()));
            assert(r@.drop_last() =~= before);
            assert(locals_map(r@) =~= locals_map(sub).remove(k@));
        } else {
            assert(locals_map(r@) =~= locals_map(sub).remove(k@));
        }
        i = i + 1;
    }
    assert(s@.subrange(0, i as int) =~= s@);
    r
}

/// A suffix of a sequence starting at `i` holds exactly its element at `i`
/// and what the suffix starting at `i + 1` holds.
proof fn lemma_suffix_to_set<A>(s: Seq<A>, i: int)
    requires
        0 <= i < s.len(),
    ensures
        s.subrange(i, s.len() as int).to_set() =~= s.subrange(i + 1, s.len() as int).to_set().insert(s[i]),
{
    let a = s.subrange(i, s.len() as int);
    let b = s.subrange(i + 1, s.len() as int);
    assert forall|x: A| a.contains(x) implies b.contains(x) || x == s[i] by {
        let k = choose|k: int| 0 <= k < a.len() && #[trigger] a[k] == x;
        if k > 0 {
            assert(b[k - 1] == x);
        }
    }
    assert forall|x: A| b.contains(x) || x == s[i] implies a.contains(x) by {
        if x == s[i] {
            assert(a[0] == x);
        } else {
            let k = choose|k: int| 0 <= k < b.len() && #[trigger] b[k] == x;
            assert(a[k + 1] == x);
        }
    }
}

/// The locals after removing `vars` one after the other, stopping at the
/// first variable that is not there, together with that variable (if any).
pub open spec fn pop_vars(m: Map<SVar, STy>, vars: Seq<SVar>) -> (Map<SVar, STy>, Option<SVar>)
    decreases vars.len(),
{
    if vars.len() == 0 {
        (m, None)
    } else if !m.dom().contains(vars[0]) {
        (m, Some(vars[0]))
    } else {
        pop_vars(m.remove(vars[0]), vars.subrange(1, vars.len() as int))
    }
}

/// The local variables with every variable in `vars` removed.
pub open spec fn without_vars(m: Map<SVar, STy>, vars: Seq<SVar>) -> Map<SVar, STy> {
    m.remove_keys(vars.to_set())
}

/// The environment with a fresh temporary of type `ty` pushed.
pub open spec fn pushed_fresh(e: SEnv, ty: STy) -> SEnv {
    SEnv {
        local_variables: e.local_variables.insert(SVar::Fresh(e.fresh), ty),
        fresh: (e.fresh + 1) as usize,
        ..e
    }
}

/// The environment with its most recent fresh temporary popped.
pub open spec fn popped_fresh(e: SEnv) -> SEnv {
    SEnv {
        local_variables: e.local_variables.remove(SVar::Fresh((e.fresh - 1) as usize)),
        fresh: (e.fresh - 1) as usize,
        ..e
    }
}

/// Popping the fresh temporary just pushed gives back the environment.
pub proof fn law_pop_undoes_push(e: SEnv, ty: STy)
    requires
        !e.local_variables.dom().contains(SVar::Fresh(e.fresh)),
        e.fresh < usize::MAX,
    ensures
        popped_fresh(pushed_fresh(e, ty)) == e,
{
    let p = pushed_fresh(e, ty);
    assert(p.local_variables.remove(SVar::Fresh((p.fresh - 1) as usize)) =~= e.local_variables);
}

/// The fresh temporaries numbered from `fresh - n` to `fresh - 1`, in order.
pub open spec fn last_fresh_vars(fresh: usize, n: int) -> Seq<SVar> {
    Seq::new(n as nat, |i: int| SVar::Fresh((fresh - n + i) as usize))
}

impl Env {
    /// Removes the local variables `vars` in order; fails on the first that
    /// is not in scope, leaving those before it removed.
    pub fn pop_local_variables(&mut self, vars: &Vec<Var>) -> (r: Result<(), TypeError>)
        ensures
            final(self)@ == (SEnv {
                local_variables: pop_vars(old(self)@.local_variables, vars@.map_values(|v: Var| v@)).0,
                ..old(self)@
            }),
            match pop_vars(old(self)@.local_variables, vars@.map_values(|v: Var| v@)).1 {
                None => r is Ok,
                Some(v) => r matches Err(e) && e@ == STypeError::NoSuchVariable(v),
            },
    {
        let ghost vv = vars@.map_values(|v: Var| v@);
        let ghost target = pop_vars(old(self)@.local_variables, vv);
        let mut i: usize = 0;
        proof {
            assert(vv.subrange(0, vv.len() as int) =~= vv);
        }
        while i < vars.len()
            invariant
                vv == vars@.map_values(|v: Var| v@),
                target == pop_vars(old(self)@.local_variables, vv),
                i <= vars@.len(),
                target == pop_vars(self@.local_variables, vv.subrange(i as int, vv.len() as int)),
                self@ == (SEnv { local_variables: self@.local_variables, ..old(self)@ }),
            decreases vars.len() - i,
        {
            let ghost sub = vv.subrange(i as int, vv.len() as int);
            assert(sub[0] == vars@[i as int]@);
            assert(sub.subrange(1, sub.len() as int) =~= vv.subrange(i + 1, vv.len() as int));
            if !self.has_local(&vars[i]) {
                return Err(TypeError::NoSuchVariable(vars[i].copy()));
            }
            self.local_variables = remove_local(&self.local_variables, &vars[i]);
            i = i + 1;
        }
        Ok(())
    }

    /// Adds a fresh temporary of type `ty`, returning the new environment
    /// and the temporary.
    pub fn push_fresh_variable(&self, ty: Ty) -> (r: (Env, Var))
        requires
            !self@.local_variables.dom().contains(SVar::Fresh(self@.fresh)),
            self@.fresh < usize::MAX,
        ensures
            r.1@ == SVar::Fresh(self@.fresh),
            r.0@ == pushed_fresh(self@, ty@),
    {
        let mut env = self.copy();
        let fresh = env.fresh;
        let pushed = env.push_local_variable(Var::Fresh(fresh), ty);
        env.fresh = env.fresh + 1;
        (env, Var::Fresh(fresh))
    }

    /// Removes the most recently pushed fresh temporaries `vars` (the last
    /// of them being the most recent).
    pub fn pop_fresh_variables(&self, vars: &Vec<Var>) -> (r: Env)
        requires
            vars@.len() <= self@.fresh,
            vars@.map_values(|v: Var| v@) == last_fresh_vars(self@.fresh, vars@.len() as int),
            forall|i: int| 0 <= i < vars@.len() ==> self@.local_variables.dom().contains(#[trigger] vars@[i]@),
        ensures
            r@ == (SEnv {
                local_variables: without_vars(self@.local_variables, vars@.map_values(|v: Var| v@)),
                fresh: (self@.fresh - vars@.len()) as usize,
                ..self@
            }),
    {
        let ghost vv = vars@.map_values(|v: Var| v@);
        let mut env = self.copy();
        let mut i: usize = vars.len();
        proof {
            assert(vv.subrange(vars@.len() as int, vv.len() as int).to_set() =~= Set::<SVar>::empty());
            assert(self@.local_variables.remove_keys(Set::<SVar>::empty()) =~= self@.local_variables);
        }
        while i > 0
            invariant
                vv == vars@.map_values(|v: Var| v@),
                vv == last_fresh_vars(self@.fresh, vars@.len() as int),
                vars@.len() <= self@.fresh,
                forall|j: int| 0 <= j < vars@.len() ==> self@.local_variables.dom().contains(#[trigger] vars@[j]@),
                i <= vars@.len(),
                env@ == (SEnv {
                    local_variables: self@.local_variables.remove_keys(vv.subrange(i as int, vv.len() as int).to_set()),
                    fresh: (self@.fresh - (vars@.len() - i)) as usize,
                    ..self@
                }),
            decreases i,
        {
            i = i - 1;
            let ghost before = env@.local_variables;
            assert(vv[i as int] == vars@[i as int]@);
            let one = vec![vars[i].copy()];
            assert(one@.map_values(|v: Var| v@) =~= seq![vars@[i as int]@]);
            assert(vars@[i as int]@ == SVar::Fresh((self@.fresh - vars@.len() + i) as usize));
            let ghost rest = vv.subrange(i + 1, vv.len() as int);
            assert(!rest.contains(vars@[i as int]@)) by {
                if rest.contains(vars@[i as int]@) {
                    let k = choose|k: int| 0 <= k < rest.len() && #[trigger] rest[k] == vars@[i as int]@;
                    assert(rest[k] == vv[i + 1 + k]);
                    assert(vv[i + 1 + k] == SVar::Fresh((self@.fresh - vars@.len() + i + 1 + k) as usize));
                }
            }
            let _ = env.pop_local_variables(&one);
            proof {
                let m = self@.local_variables;
                assert(m.dom().contains(vars@[i as int]@));
                assert(before.dom().contains(vars@[i as int]@));
                assert(seq![vars@[i as int]@].subrange(1, 1) =~= Seq::<SVar>::empty());
                reveal_with_fuel(pop_vars, 2);
                assert(env@.local_variables == before.remove(vars@[i as int]@));
                lemma_suffix_to_set(vv, i as int);
                assert(env@.local_variables =~= m.remove_keys(vv.subrange(i as int, vv.len() as int).to_set()));
            }
            env.fresh = env.fresh - 1;
        }
        proof {
            assert(vv.subrange(0, vv.len() as int) =~= vv);
        }
        env
    }

    /// Removes the most recently pushed fresh temporary `var`.
    pub fn pop_fresh_variable(&self, var: &Var) -> (r: Env)
        requires
            self@.fresh > 0,
            var@ == SVar::Fresh((self@.fresh - 1) as usize),
            self@.local_variables.dom().contains(var@),
        ensures
            r@ == popped_fresh(self@),
    {
        let vars = vec![var.copy()];
        proof {
            assert(vars@.map_values(|v: Var| v@) =~= last_fresh_vars(self@.fresh, 1));
        }
        let r = self.pop_fresh_variables(&vars);
        proof {
            let vv = vars@.map_values(|v: Var| v@);
            assert(vv[0] == var@);
            assert forall|x: SVar| vv.to_set().contains(x) <==> x == var@ by {
                if x == var@ {
                    assert(vv.contains(x));
                }
            }
            assert(vv.to_set() =~= set![var@]);
            assert(self@.local_variables.remove_keys(set![var@]) =~= self@.local_variables.remove(var@));
        }
        r
    }
}


/// The environment after the transform: every type of a local variable and
/// every assumption has its places rewritten; nothing else changes.
pub open spec fn transform_env(e: SEnv, t: STransform) -> SEnv {
    SEnv {
        local_variables: e.local_variables.map_values(|ty: STy| transform_ty(ty, t)),
        assumptions: e.assumptions.map(|p: SPredicate| transform_predicate(p, t)),
        ..e
    }
}

proof fn lemma_locals_map_transformed(a: Seq<(Var, Ty)>, b: Seq<(Var, Ty)>, t: STransform)
    requires
        a.len() == b.len(),
        forall|i: int| 0 <= i < a.len() ==> #[trigger] a[i].0@ == b[i].0@ && a[i].1@ == transform_ty(b[i].1@, t),
    ensures
        locals_map(a) == locals_map(b).map_values(|ty: STy| transform_ty(ty, t)),
    decreases a.len(),
{
    if a.len() > 0 {
        lemma_locals_map_transformed(a.drop_last(), b.drop_last(), t);
        assert(a.last().0@ == b.last().0@);
        assert(locals_map(a) =~= locals_map(b).map_values(|ty: STy| transform_ty(ty, t)));
    }
}

proof fn lemma_predicates_set_transformed(a: Seq<Predicate>, b: Seq<Predicate>, t: STransform)
    requires
        a.len() == b.len(),
        forall|i: int| 0 <= i < a.len() ==> #[trigger] a[i]@ == transform_predicate(b[i]@, t),
    ensures
        predicates_set(a) == predicates_set(b).map(|p: SPredicate| transform_predicate(p, t)),
{
    let x = predicates_set(a);
    let y = predicates_set(b).map(|p: SPredicate| transform_predicate(p, t));
    let av = a.map_values(|p: Predicate| p@);
    let bv = b.map_values(|p: Predicate| p@);
    assert forall|q: SPredicate| x.contains(q) implies y.contains(q) by {
        let i = choose|i: int| 0 <= i < av.len() && av[i] == q;
        assert(bv[i] == b[i]@);
        assert(bv.contains(b[i]@));
        assert(predicates_set(b).contains(b[i]@));
    }
    assert forall|q: SPredicate| y.contains(q) implies x.contains(q) by {
        let r = choose|r: SPredicate| predicates_set(b).contains(r) && transform_predicate(r, t) == q;
        let i = choose|i: int| 0 <= i < bv.len() && bv[i] == r;
        assert(av[i] == q);
        assert(av.contains(q));
    }
    assert(x =~= y);
}

impl InFlight for Env {
    open spec fn transformed(v: SEnv, t: STransform) -> SEnv {
        transform_env(v, t)
    }

    open spec fn accepts(v: SEnv, t: STransform) -> bool {
        transform_wf(t)
    }

    fn with_places_transformed(&self, transform: Transform<'_>) -> (r: Env) {
        let mut locals: Vec<(Var, Ty)> = Vec::new();
        let mut i: usize = 0;
        while i < self.local_variables.len()
            invariant
                transform_wf(transform@),
                i <= self.local_variables@.len(),
                locals@.len() == i,
                forall|j: int| 0 <= j < i ==> #[trigger] locals@[j].0@ == self.local_variables@[j].0@
                    && locals@[j].1@ == transform_ty(self.local_variables@[j].1@, transform@),
            decreases self.local_variables.len() - i,
        {
            let entry = &self.local_variables[i];
            locals.push((entry.0.copy(), transform_ty_exec(&entry.1, transform)));
            i = i + 1;
        }
        let mut assumptions: Vec<Predicate> = Vec::new();
        let mut i: usize = 0;
        while i < self.assumptions.len()
            invariant
                transform_wf(transform@),
                i <= self.assumptions@.len(),
                assumptions@.len() == i,
                forall|j: int| 0 <= j < i ==> #[trigger] assumptions@[j]@ == transform_predicate(self.assumptions@[j]@, transform@),
            decreases self.assumptions.len() - i,
        {
            assumptions.push(transform_predicate_exec(&self.assumptions[i], transform));
            i = i + 1;
        }
        proof {
            lemma_locals_map_transformed(locals@, self.local_variables@, transform@);
            lemma_predicates_set_transformed(assumptions@, self.assumptions@, transform@);
        }
        Env {
            program: self.program.clone(),
            universe: self.universe,
            in_scope_vars: self.in_scope_vars.clone(),
            local_variables: locals,
            assumptions,
            fresh: self.fresh,
        }
    }
}

impl Env {
    /// Adds a fresh temporary of type `ty` and stores the in-flight value
    /// into it.
    pub fn push_fresh_variable_with_in_flight(&self, ty: Ty) -> (r: (Env, Var))
        requires
            !self@.local_variables.dom().contains(SVar::Fresh(self@.fresh)),
            self@.fresh < usize::MAX,
        ensures
            r.1@ == SVar::Fresh(self@.fresh),
            r.0@ == transform_env(
                SEnv {
                    local_variables: self@.local_variables.insert(SVar::Fresh(self@.fresh), ty@),
                    fresh: (self@.fresh + 1) as usize,
                    ..self@
                },
                put_one(SVar::InFlight, var_place(SVar::Fresh(self@.fresh))),
            ),
    {
        let (env, var) = self.push_fresh_variable(ty);
        let place = Place::from_var(var.copy());
        let env = env.with_in_flight_stored_to(&place);
        (env, var)
    }
}

} // verus!
