//! Questions answered from the lien chains of a parameter: is a value of
//! this type (or with this permission) copied rather than moved, leased,
//! unique?
//!
//! Being copy does not respect substitution: `my` is not copy, yet it is a
//! subtype of `our`, which is.
use vstd::prelude::*;

use crate::chain_sets::{chain_set, lien_chains, lien_chains_of};
use crate::env::{var_predicate, Env, SEnv};
use crate::grammar::{Parameter, ParameterPredicate, Predicate, SParameter, SPerm, UniversalVar};
use crate::lien_chains::{Lien, LienChain, SLien};
use crate::methods::var_param;
use crate::predicates::{prove_predicate, provable};

verus! {

/// The predicate `k` of the variable `v`.
fn var_pred(v: UniversalVar, k: ParameterPredicate) -> (r: Predicate)
    ensures
        r@ == var_predicate(v, k),
{
    Predicate::Parameter(k, var_param(v))
}

/// A chain is copy when its first lien is `our`, a share, or a variable
/// provably copy.
pub open spec fn chain_is_copy(env: SEnv, c: Seq<SLien>, fuel: nat) -> bool {
    c.len() > 0 && match c[0] {
        SLien::Our => true,
        SLien::Shared(_) => true,
        SLien::Var(v) => provable(env, var_predicate(v, ParameterPredicate::Copy), fuel),
        SLien::Leased(_) => false,
    }
}

/// A chain is owned when it is `my`, `our`, or starts with a variable
/// provably owned followed by an owned chain.
pub open spec fn chain_is_owned(env: SEnv, c: Seq<SLien>, fuel: nat) -> bool
    decreases c.len(),
{
    if c.len() == 0 {
        true
    } else if c == seq![SLien::Our] {
        true
    } else {
        match c[0] {
            SLien::Var(v) => provable(env, var_predicate(v, ParameterPredicate::Owned), fuel)
                && chain_is_owned(env, c.subrange(1, c.len() as int), fuel),
            _ => false,
        }
    }
}

/// A chain is leased when its first lien is a lease, or a variable
/// provably mut.
pub open spec fn chain_is_leased(env: SEnv, c: Seq<SLien>, fuel: nat) -> bool {
    c.len() > 0 && match c[0] {
        SLien::Leased(_) => true,
        SLien::Var(v) => provable(env, var_predicate(v, ParameterPredicate::Mut), fuel),
        _ => false,
    }
}

/// A chain is unique when it is `my` or leased.
pub open spec fn chain_is_unique(env: SEnv, c: Seq<SLien>, fuel: nat) -> bool {
    c.len() == 0 || chain_is_leased(env, c, fuel)
}

/// The question asked of each lien chain.
#[derive(PartialEq, Eq, Structural, Clone, Copy)]
pub enum ChainQuestion {
    Copy,
    Leased,
    Unique,
}

pub open spec fn chain_answers(env: SEnv, q: ChainQuestion, c: Seq<SLien>, fuel: nat) -> bool {
    match q {
        ChainQuestion::Copy => chain_is_copy(env, c, fuel),
        ChainQuestion::Leased => chain_is_leased(env, c, fuel),
        ChainQuestion::Unique => chain_is_unique(env, c, fuel),
    }
}

/// `a` has lien chains, and each of them answers `q`.
pub open spec fn all_chains(env: SEnv, q: ChainQuestion, a: SParameter, fuel: nat) -> bool {
    match lien_chains_of(env, Seq::empty(), a, fuel) {
        None => false,
        Some(cs) => forall|c: Seq<SLien>| #[trigger] cs.contains(c) ==> chain_answers(env, q, c, fuel),
    }
}

/// True if the chain is copy (see [`chain_is_copy`]).
pub fn lien_chain_is_copy(env: &Env, chain: &LienChain, fuel: usize) -> (r: bool)
    ensures
        r == chain_is_copy(env@, chain@, fuel as nat),
{
    if chain.vec.len() == 0 {
        return false;
    }
    assert(chain@[0] == chain.vec@[0]@);
    match &chain.vec[0] {
        Lien::Our => true,
        Lien::Shared(_) => true,
        Lien::Var(v) => prove_predicate(env, &var_pred(*v, ParameterPredicate::Copy), fuel),
        Lien::Leased(_) => false,
    }
}

/// True if the chain is owned (see [`chain_is_owned`]).
pub fn lien_chain_is_owned(env: &Env, chain: &LienChain, fuel: usize) -> (r: bool)
    ensures
        r == chain_is_owned(env@, chain@, fuel as nat),
{
    let ghost c = chain@;
    let mut i: usize = 0;
    proof {
        assert(c.subrange(0, c.len() as int) =~= c);
    }
    while i < chain.vec.len()
        invariant
            c == chain@,
            c.len() == chain.vec@.len(),
            i <= c.len(),
            chain_is_owned(env@, c, fuel as nat) == chain_is_owned(env@, c.subrange(i as int, c.len() as int), fuel as nat),
        decreases chain.vec.len() - i,
    {
        let ghost rest = c.subrange(i as int, c.len() as int);
        assert(rest[0] == chain.vec@[i as int]@);
        let last = i + 1 == chain.vec.len();
        if last {
            if let Lien::Our = &chain.vec[i] {
                assert(rest =~= seq![SLien::Our]);
                return true;
            }
        }
        assert(rest != seq![SLien::Our]) by {
            if rest == seq![SLien::Our] {
                assert(rest.len() == 1);
                assert(rest[0] == SLien::Our);
            }
        }
        let ok = match &chain.vec[i] {
            Lien::Var(v) => prove_predicate(env, &var_pred(*v, ParameterPredicate::Owned), fuel),
            _ => false,
        };
        if !ok {
            return false;
        }
        assert(rest.subrange(1, rest.len() as int) =~= c.subrange(i + 1, c.len() as int));
        i = i + 1;
    }
    proof {
        assert(c.subrange(i as int, c.len() as int) =~= Seq::<SLien>::empty());
    }
    true
}

/// True if the chain is leased (see [`chain_is_leased`]).
pub fn lien_chain_is_leased(env: &Env, chain: &LienChain, fuel: usize) -> (r: bool)
    ensures
        r == chain_is_leased(env@, chain@, fuel as nat),
{
    if chain.vec.len() == 0 {
        return false;
    }
    assert(chain@[0] == chain.vec@[0]@);
    match &chain.vec[0] {
        Lien::Leased(_) => true,
        Lien::Var(v) => prove_predicate(env, &var_pred(*v, ParameterPredicate::Mut), fuel),
        _ => false,
    }
}

/// True if the chain is unique (see [`chain_is_unique`]).
pub fn lien_chain_is_unique(env: &Env, chain: &LienChain, fuel: usize) -> (r: bool)
    ensures
        r == chain_is_unique(env@, chain@, fuel as nat),
{
    chain.vec.len() == 0 || lien_chain_is_leased(env, chain, fuel)
}

fn answers(env: &Env, q: ChainQuestion, chain: &LienChain, fuel: usize) -> (r: bool)
    ensures
        r == chain_answers(env@, q, chain@, fuel as nat),
{
    match q {
        ChainQuestion::Copy => lien_chain_is_copy(env, chain, fuel),
        ChainQuestion::Leased => lien_chain_is_leased(env, chain, fuel),
        ChainQuestion::Unique => lien_chain_is_unique(env, chain, fuel),
    }
}

/// True if `a` has lien chains and each answers `q`.
fn for_all_chains(env: &Env, q: ChainQuestion, a: &Parameter, fuel: usize) -> (r: bool)
    ensures
        r == all_chains(env@, q, a@, fuel as nat),
{
    let chains = match lien_chains(env, &LienChain::my(), a, fuel) {
        None => return false,
        Some(cs) => cs,
    };
    let ghost cs = chain_set(chains@);
    let ghost cv = chains@.map_values(|c: LienChain| c@);
    let mut i: usize = 0;
    while i < chains.len()
        invariant
            cs == chain_set(chains@),
            lien_chains_of(env@, Seq::empty(), a@, fuel as nat) == Some(cs),
            cv == chains@.map_values(|c: LienChain| c@),
            i <= chains@.len(),
            forall|j: int| 0 <= j < i ==> chain_answers(env@, q, #[trigger] cv[j], fuel as nat),
        decreases chains.len() - i,
    {
        assert(cv[i as int] == chains@[i as int]@);
        if !answers(env, q, &chains[i], fuel) {
            proof {
                assert(cv.contains(cv[i as int]));
                assert(cs.contains(cv[i as int]));
                assert(!chain_answers(env@, q, cv[i as int], fuel as nat));
                assert(!(forall|c: Seq<SLien>| #[trigger] cs.contains(c) ==> chain_answers(env@, q, c, fuel as nat)));
                let cs2 = lien_chains_of(env@, Seq::empty(), a@, fuel as nat).unwrap();
                assert(cs2 == cs);
                assert(!all_chains(env@, q, a@, fuel as nat));
            }
            return false;
        }
        i = i + 1;
    }
    proof {
        assert forall|c: Seq<SLien>| #[trigger] cs.contains(c) implies chain_answers(env@, q, c, fuel as nat) by {
            let j = choose|j: int| 0 <= j < cv.len() && cv[j] == c;
        }
    }
    true
}

/// True if `a` is copy: it has lien chains, and each is copy. Walking the
/// chains and proving predicates of variables each look up a place's type
/// at most `fuel` times along any line.
pub fn is_copy(env: &Env, a: &Parameter, fuel: usize) -> (r: bool)
    ensures
        r == all_chains(env@, ChainQuestion::Copy, a@, fuel as nat),
{
    for_all_chains(env, ChainQuestion::Copy, a, fuel)
}

/// True if `a` is leased: it has lien chains, and each is leased, so that
/// it definitely stands for leased access to the object it came from.
pub fn is_leased(env: &Env, a: &Parameter, fuel: usize) -> (r: bool)
    ensures
        r == all_chains(env@, ChainQuestion::Leased, a@, fuel as nat),
{
    for_all_chains(env, ChainQuestion::Leased, a, fuel)
}

/// True if `a` is unique: it has lien chains, and each is `my` or leased.
pub fn is_unique(env: &Env, a: &Parameter, fuel: usize) -> (r: bool)
    ensures
        r == all_chains(env@, ChainQuestion::Unique, a@, fuel as nat),
{
    for_all_chains(env, ChainQuestion::Unique, a, fuel)
}

/// Copy does not respect substitution: `my` is not copy, while `our`, of
/// which it is a subtype, is.
pub proof fn law_my_is_not_copy_but_our_is(env: SEnv, fuel: nat)
    ensures
        !all_chains(env, ChainQuestion::Copy, SParameter::Perm(SPerm::Given), fuel),
        all_chains(env, ChainQuestion::Copy, SParameter::Perm(SPerm::Shared), fuel),
        all_chains(env, ChainQuestion::Unique, SParameter::Perm(SPerm::Given), fuel),
{
    crate::chain_sets::law_our_forgets_context(env, Seq::empty(), fuel);
    let e = Seq::<SLien>::empty();
    let ps = set![(e, e)];
    assert(crate::chain_sets::chain_pairs(env, e, e, SParameter::Perm(SPerm::Given), fuel) == Some(ps));
    let u = Set::new(|c: Seq<SLien>| exists|y: (Seq<SLien>, Seq<SLien>)| #[trigger] ps.contains(y)
        && c == crate::lien_chains::apply_all_spec(env, y.0, y.1));
    assert(ps.contains((e, e)));
    assert(crate::lien_chains::apply_all_spec(env, e, e) == e);
    assert(u =~= set![e]);
    assert(lien_chains_of(env, e, SParameter::Perm(SPerm::Given), fuel) == Some(set![e]));
    assert(set![e].contains(e));
    assert(!chain_answers(env, ChainQuestion::Copy, e, fuel));
    let cs = lien_chains_of(env, e, SParameter::Perm(SPerm::Given), fuel).unwrap();
    assert(cs == set![e]);
    assert(cs.contains(e));
    assert(!(forall|c: Seq<SLien>| #[trigger] cs.contains(c) ==> chain_answers(env, ChainQuestion::Copy, c, fuel)));
    assert(!all_chains(env, ChainQuestion::Copy, SParameter::Perm(SPerm::Given), fuel));
    assert(set![seq![SLien::Our]].contains(seq![SLien::Our]));
}

} // verus!
