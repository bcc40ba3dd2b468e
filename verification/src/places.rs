//! The types of places and the fields of types.
use vstd::prelude::*;

use crate::binder::{instantiate_fields, instantiation_error, subst_field};
use crate::env::Env;
use crate::errors::{STypeError, TypeError};
use crate::grammar::{
    class_index, parameters_view, project_place, var_place, FieldDecl, FieldId, NamedTy, Place,
    Projection, SClassDecl, SFieldDecl, SNamedTy, SPlace, STy, STypeName, SVar, Ty, TypeName,
    Var,
};
use crate::in_flight::{put_one, transform_ty, InFlight};

verus! {

/// The fields of a value of type `ty`. A permission on the type applies
/// to every field.
pub open spec fn fields_of(program: Seq<SClassDecl>, ty: STy) -> Result<Seq<SFieldDecl>, STypeError>
    decreases ty,
{
    match ty {
        STy::NamedTy(n) => match n.name {
            STypeName::Id(id) => if class_index(program, id) >= 0 {
                let decl = program[class_index(program, id)];
                match instantiation_error(decl.kinds, n.parameters) {
                    Some(e) => Err(e),
                    None => Ok(
                        decl.data.fields.map_values(|f: SFieldDecl| subst_field(f, n.parameters)),
                    ),
                }
            } else {
                Err(STypeError::NoSuchClass(id))
            },
            STypeName::Tuple(_) => Err(STypeError::TupleFields),
            _ => Ok(Seq::empty()),
        },
        STy::Var(_) => Ok(Seq::empty()),
        STy::ApplyPerm(perm, inner) => match fields_of(program, *inner) {
            Err(e) => Err(e),
            Ok(fs) => Ok(
                fs.map_values(
                    |f: SFieldDecl|
                        SFieldDecl { atomic: f.atomic, name: f.name, ty: STy::ApplyPerm(perm, Box::new(f.ty)) },
                ),
            ),
        },
    }
}

/// The first field of `fs` named `name`.
pub open spec fn find_field(fs: Seq<SFieldDecl>, name: Seq<char>) -> Option<SFieldDecl>
    decreases fs.len(),
{
    if fs.len() == 0 {
        None
    } else if fs[0].name == name {
        Some(fs[0])
    } else {
        find_field(fs.subrange(1, fs.len() as int), name)
    }
}

/// The type reached from `place` (of type `ty`) by following `projs`:
/// each field's declared type, with `self` standing for the place that owns it.
pub open spec fn project_ty(program: Seq<SClassDecl>, place: SPlace, ty: STy, projs: Seq<Seq<char>>) -> Result<STy, STypeError>
    decreases projs.len(),
{
    if projs.len() == 0 {
        Ok(ty)
    } else {
        match fields_of(program, ty) {
            Err(e) => Err(e),
            Ok(fs) => match find_field(fs, projs[0]) {
                None => Err(STypeError::NoSuchField(projs[0], ty, fs.map_values(|f: SFieldDecl| f.name))),
                Some(f) => project_ty(
                    program,
                    project_place(place, projs[0]),
                    transform_ty(f.ty, put_one(SVar::This, place)),
                    projs.subrange(1, projs.len() as int),
                ),
            },
        }
    }
}

/// The type of a place.
pub open spec fn place_ty_of(env: crate::env::SEnv, place: SPlace) -> Result<STy, STypeError> {
    if env.local_variables.dom().contains(place.var) {
        project_ty(env.program, var_place(place.var), env.local_variables[place.var], place.projections)
    } else {
        Err(STypeError::NoSuchVariable(place.var))
    }
}

/// The type with its outer permissions removed.
pub open spec fn strip_perm(ty: STy) -> STy
    decreases ty,
{
    match ty {
        STy::ApplyPerm(_, inner) => strip_perm(*inner),
        _ => ty,
    }
}

impl Ty {
    /// `perm ty`.
    pub fn apply_perm(perm: crate::grammar::Perm, ty: Ty) -> (r: Ty)
        ensures
            r@ == STy::ApplyPerm(perm@, Box::new(ty@)),
    {
        Ty::ApplyPerm(perm, Box::new(ty))
    }

    /// The type without its outer permissions.
    pub fn strip_perm(&self) -> (r: Ty)
        ensures
            r@ == strip_perm(self@),
        decreases self,
    {
        match self {
            Ty::ApplyPerm(_, inner) => inner.strip_perm(),
            _ => self.copy(),
        }
    }
}

fn fields_exec(env: &Env, ty: &Ty) -> (r: Result<Vec<FieldDecl>, TypeError>)
    ensures
        match fields_of(env@.program, ty@) {
            Ok(fs) => r matches Ok(v) && v@.map_values(|f: FieldDecl| f@) == fs,
            Err(e) => r matches Err(x) && x@ == e,
        },
    decreases ty,
{
    match ty {
        Ty::NamedTy(n) => match &n.name {
            TypeName::Id(id) => match env.program().class_named(id) {
                Some(decl) => instantiate_fields(decl, &n.parameters),
                None => Err(TypeError::NoSuchClass(id.copy())),
            },
            TypeName::Tuple(_) => Err(TypeError::TupleFields),
            _ => {
                let v: Vec<FieldDecl> = Vec::new();
                assert(v@.map_values(|f: FieldDecl| f@) =~= Seq::<SFieldDecl>::empty());
                Ok(v)
            },
        },
        Ty::Var(_) => {
            let v: Vec<FieldDecl> = Vec::new();
            assert(v@.map_values(|f: FieldDecl| f@) =~= Seq::<SFieldDecl>::empty());
            Ok(v)
        },
        Ty::ApplyPerm(perm, inner) => match fields_exec(env, inner) {
            Err(e) => Err(e),
            Ok(fields) => {
                let ghost fv = fields@.map_values(|f: FieldDecl| f@);
                let mut out: Vec<FieldDecl> = Vec::new();
                let mut i: usize = 0;
                while i < fields.len()
                    invariant
                        fv == fields@.map_values(|f: FieldDecl| f@),
                        i <= fields@.len(),
                        out@.len() == i,
                        forall|j: int| 0 <= j < i ==> #[trigger] out@[j]@ == (SFieldDecl {
                            atomic: fv[j].atomic,
                            name: fv[j].name,
                            ty: STy::ApplyPerm(perm@, Box::new(fv[j].ty)),
                        }),
                    decreases fields.len() - i,
                {
                    let f = &fields[i];
                    out.push(FieldDecl {
                        atomic: f.atomic,
                        name: f.name.copy(),
                        ty: Ty::apply_perm(perm.copy(), f.ty.copy()),
                    });
                    i = i + 1;
                }
                assert(out@.map_values(|f: FieldDecl| f@) =~= fv.map_values(
                    |f: SFieldDecl|
                        SFieldDecl { atomic: f.atomic, name: f.name, ty: STy::ApplyPerm(perm@, Box::new(f.ty)) },
                ));
                Ok(out)
            },
        },
    }
}

/// The first of `fields` named `name`.
fn find_field_exec<'a>(fields: &'a Vec<FieldDecl>, name: &FieldId) -> (r: Option<&'a FieldDecl>)
    ensures
        match find_field(fields@.map_values(|f: FieldDecl| f@), name@) {
            Some(f) => r matches Some(x) && x@ == f,
            None => r is None,
        },
{
    let ghost fv = fields@.map_values(|f: FieldDecl| f@);
    let mut i: usize = 0;
    proof {
        assert(fv.subrange(0, fv.len() as int) =~= fv);
    }
    while i < fields.len()
        invariant
            fv == fields@.map_values(|f: FieldDecl| f@),
            i <= fields@.len(),
            find_field(fv, name@) == find_field(fv.subrange(i as int, fv.len() as int), name@),
        decreases fields.len() - i,
    {
        let ghost sub = fv.subrange(i as int, fv.len() as int);
        assert(sub[0] == fields@[i as int]@);
        if fields[i].name.same(name) {
            return Some(&fields[i]);
        }
        assert(sub.subrange(1, sub.len() as int) =~= fv.subrange(i + 1, fv.len() as int));
        i = i + 1;
    }
    None
}

impl Env {
    /// The fields of a value of type `ty`, with the permission on `ty`
    /// applied to each field's type.
    pub fn fields(&self, ty: &Ty) -> (r: Result<Vec<FieldDecl>, TypeError>)
        ensures
            match fields_of(self@.program, ty@) {
                Ok(fs) => r matches Ok(v) && v@.map_values(|f: FieldDecl| f@) == fs,
                Err(e) => r matches Err(x) && x@ == e,
            },
    {
        fields_exec(self, ty)
    }

    /// The type reached from `place` (whose type is `ty`) through `projections`.
    fn type_projections(&self, place: &Place, ty: &Ty, projections: &[Projection]) -> (r: Result<Ty, TypeError>)
        ensures
            match project_ty(self@.program, place@, ty@, projections@.map_values(|p: Projection| p@)) {
                Ok(t) => r matches Ok(x) && x@ == t,
                Err(e) => r matches Err(x) && x@ == e,
            },
    {
        let ghost pv = projections@.map_values(|p: Projection| p@);
        let ghost target = project_ty(self@.program, place@, ty@, pv);
        let mut cur_place = place.copy();
        let mut cur_ty = ty.copy();
        let mut i: usize = 0;
        proof {
            assert(pv.subrange(0, pv.len() as int) =~= pv);
        }
        while i < projections.len()
            invariant
                pv == projections@.map_values(|p: Projection| p@),
                target == project_ty(self@.program, place@, ty@, pv),
                i <= projections@.len(),
                target == project_ty(self@.program, cur_place@, cur_ty@, pv.subrange(i as int, pv.len() as int)),
            decreases projections.len() - i,
        {
            let ghost sub = pv.subrange(i as int, pv.len() as int);
            let Projection::Field(field_id) = &projections[i];
            assert(sub[0] == field_id@);
            assert(sub.subrange(1, sub.len() as int) =~= pv.subrange(i + 1, pv.len() as int));
            let fields = match self.fields(&cur_ty) {
                Ok(fs) => fs,
                Err(e) => return Err(e),
            };
            let field = match find_field_exec(&fields, field_id) {
                Some(f) => f,
                None => {
                    let mut names: Vec<FieldId> = Vec::new();
                    let mut k: usize = 0;
                    while k < fields.len()
                        invariant
                            k <= fields@.len(),
                            names@.len() == k,
                            forall|j: int| 0 <= j < k ==> #[trigger] names@[j]@ == fields@[j]@.name,
                        decreases fields.len() - k,
                    {
                        names.push(fields[k].name.copy());
                        k = k + 1;
                    }
                    proof {
                        assert(names@.map_values(|x: FieldId| x@) =~= fields@.map_values(|f: FieldDecl| f@).map_values(|f: SFieldDecl| f.name));
                    }
                    return Err(TypeError::NoSuchField(field_id.copy(), cur_ty.copy(), names));
                },
            };
            let field_ty = field.ty.with_this_stored_to(&cur_place);
            cur_place = cur_place.project(field_id);
            cur_ty = field_ty;
            i = i + 1;
        }
        Ok(cur_ty)
    }

    /// The type of `place`.
    pub fn place_ty(&self, place: &Place) -> (r: Result<Ty, TypeError>)
        ensures
            match place_ty_of(self@, place@) {
                Ok(t) => r matches Ok(x) && x@ == t,
                Err(e) => r matches Err(x) && x@ == e,
            },
    {
        let var_ty = match self.var_ty(&place.var) {
            Ok(t) => t,
            Err(e) => return Err(e),
        };
        let root = Place::from_var(place.var.copy());
        self.type_projections(&root, var_ty, place.projections.as_slice())
    }

    /// The fields of the value at `place`, with the permissions of `place`
    /// applied to their types.
    pub fn place_fields(&self, place: &Place) -> (r: Result<Vec<FieldDecl>, TypeError>)
        ensures
            match place_ty_of(self@, place@) {
                Err(e) => r matches Err(x) && x@ == e,
                Ok(t) => match fields_of(self@.program, t) {
                    Ok(fs) => r matches Ok(v) && v@.map_values(|f: FieldDecl| f@) == fs,
                    Err(e) => r matches Err(x) && x@ == e,
                },
            },
    {
        match self.place_ty(place) {
            Err(e) => Err(e),
            Ok(t) => self.fields(&t),
        }
    }
}


/// The type of the owner of `place` (if `place` is a field) and the
/// declared type of the last field, with `self` standing for the owner.
pub open spec fn owner_and_field_ty_of(env: crate::env::SEnv, place: SPlace) -> Result<(Option<STy>, STy), STypeError> {
    if place.projections.len() == 0 {
        if env.local_variables.dom().contains(place.var) {
            Ok((None, env.local_variables[place.var]))
        } else {
            Err(STypeError::NoSuchVariable(place.var))
        }
    } else {
        let owner = crate::grammar::prefix_place(place, place.projections.len() - 1);
        match place_ty_of(env, owner) {
            Err(e) => Err(e),
            Ok(owner_ty) => match project_ty(
                env.program,
                owner,
                strip_perm(owner_ty),
                seq![place.projections.last()],
            ) {
                Err(e) => Err(e),
                Ok(t) => Ok((Some(owner_ty), t)),
            },
        }
    }
}

impl Env {
    /// For a field place `o.f`, the type of `o` and the type of its field `f`
    /// (taken from the type of `o` with its permissions removed); for a
    /// variable, no owner and the variable's type. Used to type assignments.
    pub fn owner_and_field_ty(&self, place: &Place) -> (r: Result<(Option<Ty>, Ty), TypeError>)
        ensures
            match owner_and_field_ty_of(self@, place@) {
                Err(e) => r matches Err(x) && x@ == e,
                Ok((o, t)) => r matches Ok((xo, xt)) && xt@ == t && match o {
                    None => xo is None,
                    Some(ot) => xo matches Some(y) && y@ == ot,
                },
            },
    {
        if place.projections.len() == 0 {
            return match self.var_ty(&place.var) {
                Ok(t) => Ok((None, t.copy())),
                Err(e) => Err(e),
            };
        }
        let last = place.projections.len() - 1;
        let owner_place = match place.owner() {
            Some(o) => o,
            None => return Err(TypeError::TupleFields),
        };
        let owner_ty = match self.place_ty(&owner_place) {
            Ok(t) => t,
            Err(e) => return Err(e),
        };
        let projs: Vec<Projection> = vec![place.projections[last].copy()];
        assert(projs@.map_values(|p: Projection| p@) =~= seq![place@.projections.last()]);
        let proj_ty = match self.type_projections(&owner_place, &owner_ty.strip_perm(), projs.as_slice()) {
            Ok(t) => t,
            Err(e) => return Err(e),
        };
        Ok((Some(owner_ty), proj_ty))
    }
}

} // verus!
