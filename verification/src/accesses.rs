//! Which accesses to a place the liens held by other values permit.
use vstd::prelude::*;

use crate::env::{Env, SEnv};
use crate::grammar::{
    is_disjoint, is_prefix, prefix_place, project_place, var_place, Access, FieldDecl, Parameter,
    Place, SParameter, SPlace, STy, Ty, Var,
};
use crate::liveness::{live, live_vars, LivePlaces, SLivePlaces};
use crate::local_liens::{lemma_osets_contains, lien_sets_of, liens, lset, osets, Lien, SLien};
use crate::places::{fields_of, place_ty_of};
use crate::predicates::ty_param;

verus! {

/// True if `place1` and `place2` are disjoint.
pub fn place_disjoint_from(place1: &Place, place2: &Place) -> (r: bool)
    ensures
        r == is_disjoint(place1@, place2@),
{
    place1.is_disjoint_from(place2)
}

/// True if `place1` and `place2` are disjoint or `place1` is a prefix of `place2`.
pub fn place_disjoint_from_or_prefix_of(place1: &Place, place2: &Place) -> (r: bool)
    ensures
        r == (is_disjoint(place1@, place2@) || is_prefix(place1@, place2@)),
{
    place1.is_disjoint_from(place2) || place1.is_prefix_of(place2)
}

/// A reference to `shared_place` survives the access to `accessed_place`:
/// another reference is always fine; a mutation or a drop must not touch
/// the shared place; giving may also give a whole that contains it
/// (the reference is then tracked through the new owner).
pub open spec fn shared_permits(shared_place: SPlace, access: Access, accessed_place: SPlace) -> bool {
    match access {
        Access::Rf => true,
        Access::Mt | Access::Drop => is_disjoint(accessed_place, shared_place),
        Access::Gv => is_disjoint(accessed_place, shared_place) || is_prefix(
            accessed_place,
            shared_place,
        ),
    }
}

/// A lease of `leased_place` survives the access to `accessed_place`:
/// reads, mutations and drops must not touch the leased place; giving may
/// also give a whole that contains it.
pub open spec fn leased_permits(leased_place: SPlace, access: Access, accessed_place: SPlace) -> bool {
    match access {
        Access::Rf | Access::Mt | Access::Drop => is_disjoint(accessed_place, leased_place),
        Access::Gv => is_disjoint(accessed_place, leased_place) || is_prefix(
            accessed_place,
            leased_place,
        ),
    }
}

/// Decides whether a reference to `shared_place` permits `access` to `accessed_place`.
pub fn shared_place_permits_access(shared_place: &Place, access: Access, accessed_place: &Place) -> (r: bool)
    ensures
        r == shared_permits(shared_place@, access, accessed_place@),
{
    match access {
        Access::Rf => true,
        Access::Mt | Access::Drop => place_disjoint_from(accessed_place, shared_place),
        Access::Gv => place_disjoint_from_or_prefix_of(accessed_place, shared_place),
    }
}

/// Decides whether a lease of `leased_place` permits `access` to `accessed_place`.
pub fn leased_place_permits_access(leased_place: &Place, access: Access, accessed_place: &Place) -> (r: bool)
    ensures
        r == leased_permits(leased_place@, access, accessed_place@),
{
    match access {
        Access::Rf | Access::Mt | Access::Drop => place_disjoint_from(accessed_place, leased_place),
        Access::Gv => place_disjoint_from_or_prefix_of(accessed_place, leased_place),
    }
}

/// `access` with a give weakened to a drop.
pub open spec fn give_as_drop(access: Access) -> Access {
    if access == Access::Gv {
        Access::Drop
    } else {
        access
    }
}

/// A lien survives the access: a shared borrow as [`shared_permits`] says,
/// a mutable one as [`leased_permits`] says.
pub open spec fn lien_permits(l: SLien, access: Access, accessed: SPlace) -> bool {
    match l {
        SLien::Rf(p) => shared_permits(p, access, accessed),
        SLien::Mt(p) => leased_permits(p, access, accessed),
    }
}

/// Every lien of `ls` permits the access.
pub open spec fn liens_permit(ls: Set<SLien>, access: Access, place: SPlace) -> bool {
    forall|l: SLien| #[trigger] ls.contains(l) ==> lien_permits(l, access, place)
}

/// A value of `p` permits the access: some lien set derivable for it (see
/// [`crate::local_liens::lien_sets_of`]) holds only liens that permit it.
pub open spec fn param_permits(env: SEnv, p: SParameter, access: Access, place: SPlace, fuel: nat) -> bool {
    exists|ls: Set<SLien>| #[trigger] lien_sets_of(env, p, fuel).contains(ls) && liens_permit(ls, access, place)
}

/// Every field of `prefix` other than the one leading to `place` permits
/// the access (a give counting as a drop), and the fields can be found.
pub open spec fn prefix_permits(env: SEnv, prefix: SPlace, access: Access, place: SPlace, fuel: nat) -> bool {
    match place_ty_of(env, prefix) {
        Err(_) => false,
        Ok(t) => match fields_of(env.program, t) {
            Err(_) => false,
            Ok(fs) => forall|j: int| 0 <= j < fs.len() ==> (is_prefix(project_place(prefix, #[trigger] fs[j].name), place)
                || param_permits(env, ty_param(fs[j].ty), give_as_drop(access), place, fuel)),
        },
    }
}

/// The accessed place itself permits the access: its variable is dead
/// afterwards, or every strict prefix of it permits it.
pub open spec fn accessed_place_permits(env: SEnv, live_after: SLivePlaces, access: Access, place: SPlace, fuel: nat) -> bool {
    !live(live_after, var_place(place.var)) || forall|i: int| 0 <= i < place.projections.len()
        ==> prefix_permits(env, #[trigger] prefix_place(place, i), access, place, fuel)
}

/// The environment permits the access: the type of every variable live
/// afterwards permits it, and so does the accessed place.
pub open spec fn env_permits(env: SEnv, live_after: SLivePlaces, access: Access, place: SPlace, fuel: nat) -> bool {
    &&& forall|v| #[trigger] live_vars(live_after).contains(v) ==> param_permits(env, ty_param(env.local_variables[v]), access, place, fuel)
    &&& accessed_place_permits(env, live_after, access, place, fuel)
}

/// True if `lien` permits `access` to `accessed_place`.
pub fn lien_permit_access(lien: &Lien, access: Access, accessed_place: &Place) -> (r: bool)
    ensures
        r == lien_permits(lien@, access, accessed_place@),
{
    match lien {
        Lien::Rf(p) => shared_place_permits_access(p, access, accessed_place),
        Lien::Mt(p) => leased_place_permits_access(p, access, accessed_place),
    }
}

/// True if every lien of `ls` permits `access` to `place`.
fn liens_permit_access(ls: &Vec<Lien>, access: Access, place: &Place) -> (r: bool)
    ensures
        r == liens_permit(lset(ls@), access, place@),
{
    let ghost s = lset(ls@);
    let ghost lv = ls@.map_values(|l: Lien| l@);
    let mut i: usize = 0;
    while i < ls.len()
        invariant
            s == lset(ls@),
            lv == ls@.map_values(|l: Lien| l@),
            i <= ls@.len(),
            forall|j: int| 0 <= j < i ==> lien_permits(#[trigger] lv[j], access, place@),
        decreases ls.len() - i,
    {
        assert(lv[i as int] == ls@[i as int]@);
        if !lien_permit_access(&ls[i], access, place) {
            proof {
                assert(lv.contains(lv[i as int]));
                assert(s.contains(lv[i as int]));
            }
            return false;
        }
        i = i + 1;
    }
    proof {
        assert forall|l: SLien| #[trigger] s.contains(l) implies lien_permits(l, access, place@) by {
            let j = choose|j: int| 0 <= j < lv.len() && lv[j] == l;
        }
    }
    true
}

/// True if a value of `parameter` permits `access` to `place` (see
/// [`param_permits`]).
pub fn parameter_permits_access(env: &Env, parameter: &Parameter, access: Access, place: &Place, fuel: usize) -> (r: bool)
    ensures
        r == param_permits(env@, parameter@, access, place@, fuel as nat),
{
    let outcomes = liens(env, parameter, fuel);
    let mut i: usize = 0;
    while i < outcomes.len()
        invariant
            osets(outcomes@) == lien_sets_of(env@, parameter@, fuel as nat),
            i <= outcomes@.len(),
            forall|j: int| 0 <= j < i ==> !liens_permit(lset(#[trigger] outcomes@[j]@), access, place@),
        decreases outcomes.len() - i,
    {
        if liens_permit_access(&outcomes[i], access, place) {
            proof {
                lemma_osets_contains(outcomes@, lset(outcomes@[i as int]@));
                assert(lien_sets_of(env@, parameter@, fuel as nat).contains(lset(outcomes@[i as int]@)));
            }
            return true;
        }
        i = i + 1;
    }
    proof {
        assert forall|ls: Set<SLien>| #[trigger] lien_sets_of(env@, parameter@, fuel as nat).contains(ls) implies !liens_permit(ls, access, place@) by {
            lemma_osets_contains(outcomes@, ls);
            let j = choose|j: int| 0 <= j < outcomes@.len() && lset(#[trigger] outcomes@[j]@) == ls;
        }
    }
    false
}

/// True if the field of `place_prefix` permits the access to `place`: it
/// leads to `place`, or its type permits the access with a give counting
/// as a drop (a share held in a field cannot follow the value given away).
fn field_of_accessed_place_prefix_permits_access(env: &Env, place_prefix: &Place, field: &FieldDecl, access: Access, place: &Place, fuel: usize) -> (r: bool)
    ensures
        r == (is_prefix(project_place(place_prefix@, field@.name), place@)
            || param_permits(env@, ty_param(field@.ty), give_as_drop(access), place@, fuel as nat)),
{
    let place_with_field = place_prefix.project(&field.name);
    if place_with_field.is_prefix_of(place) {
        true
    } else {
        let p = Parameter::Ty(field.ty.copy());
        assert(p@ == ty_param(field@.ty));
        parameter_permits_access(env, &p, access.give_to_drop(), place, fuel)
    }
}

/// True if `place_prefix`'s fields permit the access (see [`prefix_permits`]).
fn accessed_place_prefix_permits_access(env: &Env, place_prefix: &Place, access: Access, place: &Place, fuel: usize) -> (r: bool)
    ensures
        r == prefix_permits(env@, place_prefix@, access, place@, fuel as nat),
{
    let fields = match env.place_fields(place_prefix) {
        Err(_) => return false,
        Ok(fs) => fs,
    };
    let ghost fs = fields@.map_values(|f: FieldDecl| f@);
    let mut i: usize = 0;
    while i < fields.len()
        invariant
            fs == fields@.map_values(|f: FieldDecl| f@),
            place_ty_of(env@, place_prefix@) matches Ok(t) && fields_of(env@.program, t) == Ok::<Seq<crate::grammar::SFieldDecl>, crate::errors::STypeError>(fs),
            i <= fields@.len(),
            forall|j: int| 0 <= j < i ==> (is_prefix(project_place(place_prefix@, #[trigger] fs[j].name), place@)
                || param_permits(env@, ty_param(fs[j].ty), give_as_drop(access), place@, fuel as nat)),
        decreases fields.len() - i,
    {
        assert(fs[i as int] == fields@[i as int]@);
        if !field_of_accessed_place_prefix_permits_access(env, place_prefix, &fields[i], access, place, fuel) {
            return false;
        }
        i = i + 1;
    }
    true
}

/// True if the accessed place permits the access (see
/// [`accessed_place_permits`]).
fn accessed_place_permits_access(env: &Env, live_after: &LivePlaces, access: Access, place: &Place, fuel: usize) -> (r: bool)
    ensures
        r == accessed_place_permits(env@, live_after@, access, place@, fuel as nat),
{
    if !live_after.is_live(&Place::from_var(place.var.copy())) {
        return true;
    }
    let prefixes = place.strict_prefixes();
    let mut i: usize = 0;
    while i < prefixes.len()
        invariant
            live(live_after@, var_place(place@.var)),
            prefixes@.len() == place@.projections.len(),
            forall|k: int| 0 <= k < prefixes@.len() ==> #[trigger] prefixes@[k]@ == prefix_place(place@, k),
            i <= prefixes@.len(),
            forall|k: int| 0 <= k < i ==> prefix_permits(env@, #[trigger] prefix_place(place@, k), access, place@, fuel as nat),
        decreases prefixes.len() - i,
    {
        assert(prefixes@[i as int]@ == prefix_place(place@, i as int));
        if !accessed_place_prefix_permits_access(env, &prefixes[i], access, place, fuel) {
            return false;
        }
        i = i + 1;
    }
    true
}

/// True if accessing `place` as `access` is permitted by the environment
/// (see [`env_permits`]); whether `place` is initialized is not checked,
/// as assignments rely on this too. Each computation of liens looks up at
/// most `fuel` place types along any line.
pub fn env_permits_access(env: &Env, live_after: &LivePlaces, access: Access, place: &Place, fuel: usize) -> (r: bool)
    requires
        forall|v| #[trigger] live_vars(live_after@).contains(v) ==> env@.local_variables.dom().contains(v),
    ensures
        r == env_permits(env@, live_after@, access, place@, fuel as nat),
{
    let vars = live_after.vars();
    let ghost vv = vars@.map_values(|v: Var| v@);
    let mut i: usize = 0;
    while i < vars.len()
        invariant
            vv == vars@.map_values(|v: Var| v@),
            vv.to_set() == live_vars(live_after@),
            forall|v| #[trigger] live_vars(live_after@).contains(v) ==> env@.local_variables.dom().contains(v),
            i <= vars@.len(),
            forall|j: int| 0 <= j < i ==> param_permits(env@, ty_param(env@.local_variables[#[trigger] vv[j]]), access, place@, fuel as nat),
        decreases vars.len() - i,
    {
        assert(vv[i as int] == vars@[i as int]@);
        assert(vv.contains(vv[i as int]));
        assert(live_vars(live_after@).contains(vv[i as int]));
        let ty = match env.var_ty(&vars[i]) {
            Ok(t) => t,
            Err(_) => {
                assert(false);
                return false;
            },
        };
        let p = Parameter::Ty(ty.copy());
        assert(p@ == ty_param(env@.local_variables[vv[i as int]]));
        if !parameter_permits_access(env, &p, access, place, fuel) {
            return false;
        }
        i = i + 1;
    }
    proof {
        assert forall|v| #[trigger] live_vars(live_after@).contains(v) implies param_permits(env@, ty_param(env@.local_variables[v]), access, place@, fuel as nat) by {
            assert(vv.to_set().contains(v));
            let j = choose|j: int| 0 <= j < vv.len() && vv[j] == v;
        }
    }
    accessed_place_permits_access(env, live_after, access, place, fuel)
}

/// True if `place` may be accessed as `access` (see [`env_permits_access`]).
pub fn access_permitted(env: &Env, live_after: &LivePlaces, access: Access, place: &Place, fuel: usize) -> (r: bool)
    requires
        forall|v| #[trigger] live_vars(live_after@).contains(v) ==> env@.local_variables.dom().contains(v),
    ensures
        r == env_permits(env@, live_after@, access, place@, fuel as nat),
{
    env_permits_access(env, live_after, access, place, fuel)
}

/// True if every place of `places` may be accessed as `access`.
pub fn accesses_permitted(env: &Env, live_after: &LivePlaces, access: Access, places: &Vec<Place>, fuel: usize) -> (r: bool)
    requires
        forall|v| #[trigger] live_vars(live_after@).contains(v) ==> env@.local_variables.dom().contains(v),
    ensures
        r == forall|j: int| 0 <= j < places@.len() ==> env_permits(env@, live_after@, access, #[trigger] places@[j]@, fuel as nat),
{
    let mut i: usize = 0;
    while i < places.len()
        invariant
            forall|v| #[trigger] live_vars(live_after@).contains(v) ==> env@.local_variables.dom().contains(v),
            i <= places@.len(),
            forall|j: int| 0 <= j < i ==> env_permits(env@, live_after@, access, #[trigger] places@[j]@, fuel as nat),
        decreases places.len() - i,
    {
        if !access_permitted(env, live_after, access, &places[i], fuel) {
            return false;
        }
        i = i + 1;
    }
    true
}

/// When nothing is live afterwards, every access is permitted.
pub proof fn law_nothing_live_permits_everything(env: SEnv, access: Access, place: SPlace, fuel: nat)
    ensures
        env_permits(env, crate::liveness::no_places(), access, place, fuel),
{
    let l = crate::liveness::no_places();
    assert(live_vars(l) =~= Set::empty()) by {
        assert forall|v| !#[trigger] live_vars(l).contains(v) by {
            if live_vars(l).contains(v) {
                let p = choose|p: SPlace| (l.accessed + l.traversed).contains(p) && v == p.var;
            }
        }
    }
}

/// A lease of a place refuses every access to that place itself but
/// giving it away (the lease then follows the new owner); a share of it
/// refuses writes and drops, while another share is always permitted.
pub proof fn law_borrows_guard_their_place(p: SPlace, access: Access)
    ensures
        access != Access::Gv ==> !lien_permits(SLien::Mt(p), access, p),
        lien_permits(SLien::Mt(p), Access::Gv, p),
        lien_permits(SLien::Rf(p), Access::Rf, p),
        !lien_permits(SLien::Rf(p), Access::Mt, p),
        !lien_permits(SLien::Rf(p), Access::Drop, p),
{
    assert(is_prefix(p, p)) by {
        assert(p.projections.is_prefix_of(p.projections));
    }
}

/// A lease of a place `l` permits reading, mutating or dropping a place `a`
/// only when neither is a prefix of the other: the leased place itself, any
/// part of it and any owner of it (such as the variable holding it) are
/// refused. Giving `a` away is refused only for a part of the leased place.
pub proof fn law_lease_refuses_overlapping_places(l: SPlace, access: Access, a: SPlace)
    ensures
        access != Access::Gv ==> (leased_permits(l, access, a) <==> (!is_prefix(a, l) && !is_prefix(l, a))),
        leased_permits(l, Access::Gv, a) <==> !(is_prefix(l, a) && !is_prefix(a, l)),
        access != Access::Gv ==> (lien_permits(SLien::Mt(l), access, a) <==> (!is_prefix(a, l) && !is_prefix(l, a))),
{
}

/// A shared borrow of a place `s` permits every read; it permits mutating or
/// dropping a place `a` only when neither is a prefix of the other, and giving
/// `a` away unless `a` is a strict part of `s`.
pub proof fn law_share_refuses_overlapping_writes(s: SPlace, access: Access, a: SPlace)
    ensures
        shared_permits(s, Access::Rf, a),
        (access == Access::Mt || access == Access::Drop) ==> (shared_permits(s, access, a) <==> (!is_prefix(a, s) && !is_prefix(s, a))),
        shared_permits(s, Access::Gv, a) <==> !(is_prefix(s, a) && !is_prefix(a, s)),
        lien_permits(SLien::Rf(s), access, a) == shared_permits(s, access, a),
{
}

} // verus!
