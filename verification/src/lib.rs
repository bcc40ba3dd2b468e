//! A verified model of the Dada type system's core: the grammar of types,
//! permissions, places and method bodies, together with the operations the
//! type checker performs on them.
use vstd::prelude::*;

pub mod accesses;
pub mod binder;
pub mod chain_sets;
pub mod classes;
pub mod env;
pub mod errors;
pub mod expressions;
pub mod flow;
pub mod grammar;
pub mod in_flight;
pub mod is_;
pub mod lien2;
pub mod lien_chains;
pub mod liveness;
pub mod local_liens;
pub mod methods;
pub mod outcomes;
pub mod ownership;
pub mod perm_matcher;
pub mod perms;
pub mod places;
pub mod pop_normalize;
pub mod predicates;
pub mod program;
pub mod red_terms;
pub mod redperms;
pub mod restrictions;
pub mod subtypes;
pub mod summaries;
pub mod terms;
pub mod text;
pub mod types;

verus! {

} // verus!
