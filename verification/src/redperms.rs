//! Reduced permissions: a permission expanded into chains of links, each
//! link naming one step by which the value was reached.
use vstd::prelude::*;

use crate::env::{Env, SEnv};
use crate::grammar::{
    is_prefix, lemma_place_set_contains, lemma_place_set_empty, lemma_place_set_push, place_set,
    prefix_place, Parameter, ParameterPredicate, Perm, Place, SParameter, SPerm, SPlace, STy, Ty,
    Variable,
};
use crate::liveness::{live, LivePlaces, SLivePlaces};
use crate::places::{owner_and_field_ty_of, place_ty_of};
use crate::predicates::{law_given_and_shared, pp, provable, prove_is_copy};

verus! {

/// A set of chains; the permission is any one of them.
pub struct RedPerm {
    pub chains: Vec<RedChain>,
}

/// The links of one chain, oldest first.
pub struct RedChain {
    pub links: Vec<RedLink>,
}

/// One link of a chain.
pub enum RedLink {
    /// Shared ownership.
    Shared,
    /// Borrowed from a place that is live afterwards.
    Rfl(Place),
    /// Borrowed from a place that is dead afterwards.
    Rfd(Place),
    /// Mutably borrowed from a place that is live afterwards.
    Mtl(Place),
    /// Mutably borrowed from a place that is dead afterwards.
    Mtd(Place),
    /// Given from a place.
    Mv(Place),
    /// A permission variable.
    Var(Variable),
}

pub enum SRedLink {
    Shared,
    Rfl(SPlace),
    Rfd(SPlace),
    Mtl(SPlace),
    Mtd(SPlace),
    Mv(SPlace),
    Var(Variable),
}

impl View for RedLink {
    type V = SRedLink;

    open spec fn view(&self) -> SRedLink {
        match self {
            RedLink::Shared => SRedLink::Shared,
            RedLink::Rfl(p) => SRedLink::Rfl(p@),
            RedLink::Rfd(p) => SRedLink::Rfd(p@),
            RedLink::Mtl(p) => SRedLink::Mtl(p@),
            RedLink::Mtd(p) => SRedLink::Mtd(p@),
            RedLink::Mv(p) => SRedLink::Mv(p@),
            RedLink::Var(v) => SRedLink::Var(*v),
        }
    }
}

impl View for RedChain {
    type V = Seq<SRedLink>;

    open spec fn view(&self) -> Seq<SRedLink> {
        self.links@.map_values(|l: RedLink| l@)
    }
}

impl View for RedPerm {
    type V = Seq<Seq<SRedLink>>;

    open spec fn view(&self) -> Seq<Seq<SRedLink>> {
        self.chains@.map_values(|c: RedChain| c@)
    }
}

/// The empty chain: unique ownership.
#[derive(Clone, Copy)]
pub struct My();

/// A chain seen as its first part `.0` and the rest `.1`.
pub struct Head<H, T>(pub H, pub T);

/// The rest of a chain.
pub struct Tail<T>(pub T);

/// The permission a link stands for.
pub open spec fn link_perm(l: SRedLink) -> SPerm {
    match l {
        SRedLink::Shared => SPerm::Shared,
        SRedLink::Rfl(p) => SPerm::Rf(set![p]),
        SRedLink::Rfd(p) => SPerm::Rf(set![p]),
        SRedLink::Mtl(p) => SPerm::Mt(set![p]),
        SRedLink::Mtd(p) => SPerm::Mt(set![p]),
        SRedLink::Mv(p) => SPerm::Mv(set![p]),
        SRedLink::Var(v) => SPerm::Var(v),
    }
}

/// The permission a non-empty chain stands for: its links applied left to right.
pub open spec fn links_perm(s: Seq<SRedLink>) -> SPerm
    decreases s.len(),
{
    if s.len() <= 1 {
        link_perm(s[0])
    } else {
        SPerm::Apply(Box::new(links_perm(s.drop_last())), Box::new(link_perm(s.last())))
    }
}

/// The permission a chain stands for; the empty chain is `given`.
pub open spec fn chain_perm(s: Seq<SRedLink>) -> SPerm {
    if s.len() == 0 {
        SPerm::Given
    } else {
        links_perm(s)
    }
}

fn single_place(p: &Place) -> (r: Vec<Place>)
    ensures
        r@.len() == 1,
        r@[0]@ == p@,
        crate::grammar::place_set(r@) == set![p@],
{
    let r = vec![p.copy()];
    proof {
        lemma_place_set_empty();
        lemma_place_set_push(Seq::<Place>::empty(), r@[0]);
        assert(Seq::<Place>::empty().push(r@[0]) =~= r@);
        assert(Set::<SPlace>::empty().insert(p@) =~= set![p@]);
    }
    r
}

impl RedLink {
    pub fn copy(&self) -> (r: RedLink)
        ensures
            r@ == self@,
    {
        match self {
            RedLink::Shared => RedLink::Shared,
            RedLink::Rfl(p) => RedLink::Rfl(p.copy()),
            RedLink::Rfd(p) => RedLink::Rfd(p.copy()),
            RedLink::Mtl(p) => RedLink::Mtl(p.copy()),
            RedLink::Mtd(p) => RedLink::Mtd(p.copy()),
            RedLink::Mv(p) => RedLink::Mv(p.copy()),
            RedLink::Var(v) => RedLink::Var(*v),
        }
    }

    /// True if both links are the same.
    pub fn same(&self, other: &RedLink) -> (r: bool)
        ensures
            r == (self@ == other@),
    {
        match (self, other) {
            (RedLink::Shared, RedLink::Shared) => true,
            (RedLink::Rfl(a), RedLink::Rfl(b)) => a.same(b),
            (RedLink::Rfd(a), RedLink::Rfd(b)) => a.same(b),
            (RedLink::Mtl(a), RedLink::Mtl(b)) => a.same(b),
            (RedLink::Mtd(a), RedLink::Mtd(b)) => a.same(b),
            (RedLink::Mv(a), RedLink::Mv(b)) => a.same(b),
            (RedLink::Var(a), RedLink::Var(b)) => *a == *b,
            _ => false,
        }
    }

    /// The permission this link stands for.
    pub fn to_perm(&self) -> (r: Perm)
        ensures
            r@ == link_perm(self@),
    {
        match self {
            RedLink::Shared => Perm::Shared,
            RedLink::Rfl(p) => Perm::Rf(single_place(p)),
            RedLink::Rfd(p) => Perm::Rf(single_place(p)),
            RedLink::Mtl(p) => Perm::Mt(single_place(p)),
            RedLink::Mtd(p) => Perm::Mt(single_place(p)),
            RedLink::Mv(p) => Perm::Mv(single_place(p)),
            RedLink::Var(v) => Perm::Var(*v),
        }
    }
}

impl RedChain {
    /// The links of this chain from `k` on.
    pub fn suffix(&self, k: usize) -> (r: RedChain)
        requires
            k <= self@.len(),
        ensures
            r@ == self@.subrange(k as int, self@.len() as int),
    {
        let mut links: Vec<RedLink> = Vec::new();
        let mut i: usize = k;
        while i < self.links.len()
            invariant
                k <= i <= self.links@.len(),
                links@.len() == i - k,
                forall|j: int| 0 <= j < i - k ==> #[trigger] links@[j]@ == self.links@[j + k]@,
            decreases self.links.len() - i,
        {
            links.push(self.links[i].copy());
            i = i + 1;
        }
        let r = RedChain { links };
        assert(r@ =~= self@.subrange(k as int, self@.len() as int));
        r
    }

    /// True if both chains have the same links.
    pub fn same(&self, other: &RedChain) -> (r: bool)
        ensures
            r == (self@ == other@),
    {
        if self.links.len() != other.links.len() {
            assert(self@.len() != other@.len());
            return false;
        }
        let mut i: usize = 0;
        while i < self.links.len()
            invariant
                self.links@.len() == other.links@.len(),
                i <= self.links@.len(),
                forall|j: int| 0 <= j < i ==> #[trigger] self.links@[j]@ == other.links@[j]@,
            decreases self.links.len() - i,
        {
            if !self.links[i].same(&other.links[i]) {
                assert(self@[i as int] != other@[i as int]);
                return false;
            }
            i = i + 1;
        }
        assert(self@ =~= other@);
        true
    }

    pub fn copy(&self) -> (r: RedChain)
        ensures
            r@ == self@,
    {
        let mut links: Vec<RedLink> = Vec::new();
        let mut i: usize = 0;
        while i < self.links.len()
            invariant
                i <= self.links@.len(),
                links@.len() == i,
                forall|j: int| 0 <= j < i ==> #[trigger] links@[j]@ == self.links@[j]@,
            decreases self.links.len() - i,
        {
            links.push(self.links[i].copy());
            i = i + 1;
        }
        let r = RedChain { links };
        assert(r@ =~= self@);
        r
    }

    /// The empty chain: the permission `given`.
    pub fn given() -> (r: RedChain)
        ensures
            r@ == Seq::<SRedLink>::empty(),
    {
        let r = RedChain { links: Vec::new() };
        assert(r@ =~= Seq::<SRedLink>::empty());
        r
    }

    /// The chain made of `link` alone.
    pub fn from_link(link: RedLink) -> (r: RedChain)
        ensures
            r@ == seq![link@],
    {
        let r = RedChain { links: vec![link] };
        assert(r@ =~= seq![r.links@[0]@]);
        r
    }

    /// The chain made of a copy of `links`.
    pub fn from_links(links: &[RedLink]) -> (r: RedChain)
        ensures
            r@ == links@.map_values(|l: RedLink| l@),
    {
        let mut out: Vec<RedLink> = Vec::new();
        let mut i: usize = 0;
        while i < links.len()
            invariant
                i <= links@.len(),
                out@.len() == i,
                forall|j: int| 0 <= j < i ==> #[trigger] out@[j]@ == links@[j]@,
            decreases links.len() - i,
        {
            out.push(links[i].copy());
            i = i + 1;
        }
        let r = RedChain { links: out };
        assert(r@ =~= links@.map_values(|l: RedLink| l@));
        r
    }

    /// `Some(My())` exactly when the chain is empty.
    pub fn as_my(&self) -> (r: Option<My>)
        ensures
            r is Some <==> self@.len() == 0,
    {
        if self.links.len() == 0 {
            Some(My())
        } else {
            None
        }
    }

    /// The only link of a chain of length one.
    pub fn as_link(&self) -> (r: Option<RedLink>)
        ensures
            self@.len() == 1 ==> (r matches Some(l) && l@ == self@[0]),
            self@.len() != 1 ==> r is None,
    {
        if self.links.len() == 1 {
            Some(self.links[0].copy())
        } else {
            None
        }
    }

    /// `lhs` followed by `rhs`.
    pub fn concat(lhs: &RedChain, rhs: &RedChain) -> (r: RedChain)
        ensures
            r@ == lhs@ + rhs@,
    {
        let mut r = lhs.copy();
        let mut i: usize = 0;
        while i < rhs.links.len()
            invariant
                i <= rhs.links@.len(),
                r@ == lhs@ + rhs@.subrange(0, i as int),
            decreases rhs.links.len() - i,
        {
            let ghost before = r@;
            r.links.push(rhs.links[i].copy());
            assert(r@ =~= before.push(rhs@[i as int]));
            assert(rhs@.subrange(0, i + 1) =~= rhs@.subrange(0, i as int).push(rhs@[i as int]));
            i = i + 1;
        }
        assert(rhs@.subrange(0, rhs@.len() as int) =~= rhs@);
        r
    }

    /// The chain `link` followed by `chain`.
    pub fn cons(link: RedLink, chain: RedChain) -> (r: RedChain)
        ensures
            r@ == seq![link@] + chain@,
    {
        let mut chain = chain;
        let ghost before = chain@;
        chain.links.insert(0, link);
        assert(chain@ =~= seq![link@] + before);
        chain
    }

    /// Splits off the first link; `None` for the empty chain.
    pub fn split_first(&self) -> (r: Option<Head<RedLink, Tail<RedChain>>>)
        ensures
            self@.len() == 0 ==> r is None,
            self@.len() > 0 ==> (r matches Some(Head(l, Tail(t))) && l@ == self@[0]
                && t@ == self@.subrange(1, self@.len() as int)),
    {
        if self.links.len() == 0 {
            return None;
        }
        let rest = RedChain::from_links(self.links.split_at(1).1);
        assert(rest@ =~= self@.subrange(1, self@.len() as int));
        Some(Head(self.links[0].copy(), Tail(rest)))
    }

    /// Splits off the last link; `None` for the empty chain.
    pub fn split_last(&self) -> (r: Option<Head<RedChain, RedLink>>)
        ensures
            self@.len() == 0 ==> r is None,
            self@.len() > 0 ==> (r matches Some(Head(h, l)) && l@ == self@.last()
                && h@ == self@.drop_last()),
    {
        match pop_link(self) {
            Some((h, l)) => Some(Head(h, l)),
            None => None,
        }
    }

    /// The permission this chain stands for: its links applied left to
    /// right, `given` when it is empty.
    pub fn to_perm(&self) -> (r: Perm)
        ensures
            r@ == chain_perm(self@),
    {
        if self.links.len() == 0 {
            return Perm::Given;
        }
        let mut perm = self.links[0].to_perm();
        let mut i: usize = 1;
        proof {
            assert(self@.subrange(0, 1).len() == 1);
            assert(self@.subrange(0, 1)[0] == self@[0]);
        }
        while i < self.links.len()
            invariant
                1 <= i <= self.links@.len(),
                perm@ == links_perm(self@.subrange(0, i as int)),
            decreases self.links.len() - i,
        {
            let ghost sub = self@.subrange(0, i + 1);
            assert(sub.drop_last() =~= self@.subrange(0, i as int));
            assert(sub.last() == self.links@[i as int]@);
            perm = Perm::Apply(Box::new(perm), Box::new(self.links[i].to_perm()));
            i = i + 1;
        }
        assert(self@.subrange(0, self@.len() as int) =~= self@);
        perm
    }
}

/// The last link of the chain, if any.
pub fn tail_link(chain: &RedChain) -> (r: Option<RedLink>)
    ensures
        chain@.len() == 0 ==> r is None,
        chain@.len() > 0 ==> (r matches Some(l) && l@ == chain@.last()),
{
    let n = chain.links.len();
    if n == 0 {
        None
    } else {
        Some(chain.links[n - 1].copy())
    }
}

/// The chain without its last link, and that link; `None` when empty.
pub fn pop_link(chain: &RedChain) -> (r: Option<(RedChain, RedLink)>)
    ensures
        chain@.len() == 0 ==> r is None,
        chain@.len() > 0 ==> (r matches Some((h, l)) && h@ == chain@.drop_last() && l@ == chain@.last()),
{
    let mut chain = chain.copy();
    let ghost before = chain@;
    match chain.links.pop() {
        Some(link) => {
            assert(chain@ =~= before.drop_last());
            Some((chain, link))
        },
        None => None,
    }
}

/// Putting a link in front of a chain and splitting it off again gives
/// back the link and the chain.
pub proof fn law_cons_then_split(l: SRedLink, c: Seq<SRedLink>)
    ensures
        (seq![l] + c)[0] == l,
        (seq![l] + c).subrange(1, (seq![l] + c).len() as int) == c,
{
    assert((seq![l] + c).subrange(1, (seq![l] + c).len() as int) =~= c);
}

/// The permission of a chain with one more link is the permission of the
/// chain applied to that link (or the link alone for the empty chain).
pub proof fn law_chain_perm_push(c: Seq<SRedLink>, l: SRedLink)
    ensures
        chain_perm(c.push(l)) == (if c.len() == 0 {
            link_perm(l)
        } else {
            SPerm::Apply(Box::new(chain_perm(c)), Box::new(link_perm(l)))
        }),
{
    assert(c.push(l).drop_last() =~= c);
}

// ---------------------------------------------------------------------------
// Reducing a permission to chains
// ---------------------------------------------------------------------------

/// The permission a type is held with: that of an applied permission,
/// `given` for any other type.
pub open spec fn perm_of_ty(t: STy) -> SPerm {
    match t {
        STy::ApplyPerm(p, _) => p,
        _ => SPerm::Given,
    }
}

/// The chain stands for a copy permission.
pub open spec fn chain_is_copy(env: SEnv, c: Seq<SRedLink>, fuel: nat) -> bool {
    provable(env, pp(ParameterPredicate::Copy, SParameter::Perm(chain_perm(c))), fuel)
}

/// `lhs` applied to `rhs`: `rhs` alone when it is copy, the links of both
/// in turn otherwise.
pub open spec fn appended(env: SEnv, lhs: Seq<SRedLink>, rhs: Seq<SRedLink>, fuel: nat) -> Seq<SRedLink> {
    if chain_is_copy(env, rhs, fuel) {
        rhs
    } else {
        lhs + rhs
    }
}

/// Every chain of `ls` applied to every chain of `rs`.
pub open spec fn appended_all(env: SEnv, ls: Set<Seq<SRedLink>>, rs: Set<Seq<SRedLink>>, fuel: nat) -> Set<Seq<SRedLink>> {
    Set::new(|x: Seq<SRedLink>| exists|a: Seq<SRedLink>, b: Seq<SRedLink>| #![trigger ls.contains(a), rs.contains(b)]
        ls.contains(a) && rs.contains(b) && x == appended(env, a, b, fuel))
}

/// How a permission reaches its places.
#[derive(PartialEq, Eq, Structural, Clone, Copy)]
pub enum LinkKind {
    Mv,
    Rf,
    Mt,
}

/// The link by which a place is reached: moved from, or borrowed (shared
/// or mutably) from a place live or dead after `l`.
pub open spec fn kind_link(l: SLivePlaces, k: LinkKind, q: SPlace) -> SRedLink {
    match k {
        LinkKind::Mv => SRedLink::Mv(q),
        LinkKind::Rf => if live(l, q) {
            SRedLink::Rfl(q)
        } else {
            SRedLink::Rfd(q)
        },
        LinkKind::Mt => if live(l, q) {
            SRedLink::Mtl(q)
        } else {
            SRedLink::Mtd(q)
        },
    }
}

/// One single-link chain for each place of `s`.
pub open spec fn link_chains(l: SLivePlaces, k: LinkKind, s: Set<SPlace>) -> Set<Seq<SRedLink>> {
    Set::new(|c: Seq<SRedLink>| exists|q: SPlace| #[trigger] s.contains(q) && c == seq![kind_link(l, k, q)])
}

/// The chains `p` reduces to in one step, one for each choice of a place
/// among those it names: owned, shared and variable permissions are one
/// link (or none), each place of a move or borrow is one link (a borrow
/// live or dead after `l`), an application appends its two sides, and a
/// choice among permissions reduces to nothing.
pub open spec fn red_chains(env: SEnv, l: SLivePlaces, p: SPerm, fuel: nat) -> Set<Seq<SRedLink>>
    decreases p,
{
    match p {
        SPerm::Given => set![Seq::empty()],
        SPerm::Shared => set![seq![SRedLink::Shared]],
        SPerm::Var(v) => set![seq![SRedLink::Var(v)]],
        SPerm::Mv(s) => link_chains(l, LinkKind::Mv, s),
        SPerm::Rf(s) => link_chains(l, LinkKind::Rf, s),
        SPerm::Mt(s) => link_chains(l, LinkKind::Mt, s),
        SPerm::Apply(a, b) => appended_all(env, red_chains(env, l, *a, fuel), red_chains(env, l, *b, fuel), fuel),
        SPerm::Or(_) => Set::empty(),
    }
}

/// The place the last link of `c` borrows from, if it is a borrow.
pub open spec fn borrowed_place(c: Seq<SRedLink>) -> Option<SPlace> {
    if c.len() == 0 {
        None
    } else {
        match c.last() {
            SRedLink::Rfl(q) => Some(q),
            SRedLink::Rfd(q) => Some(q),
            SRedLink::Mtl(q) => Some(q),
            SRedLink::Mtd(q) => Some(q),
            _ => None,
        }
    }
}

/// The place the last link of `c` moves from, if it is a move.
pub open spec fn moved_place(c: Seq<SRedLink>) -> Option<SPlace> {
    if c.len() > 0 && c.last() is Mv {
        Some(c.last()->Mv_0)
    } else {
        None
    }
}

/// `c` is expanded as far as it goes: it is empty, or ends with shared
/// ownership or a variable.
pub open spec fn inextensible(c: Seq<SRedLink>) -> bool {
    c.len() == 0 || c.last() is Shared || c.last() is Var
}

/// `c` ends borrowing from a place whose type is held with `given`.
pub open spec fn borrows_from_given(env: SEnv, c: Seq<SRedLink>) -> bool {
    borrowed_place(c) matches Some(q) && place_ty_of(env, q) matches Ok(t) && perm_of_ty(t) == SPerm::Given
}

/// `c` is fully expanded: it goes no further, or it ends borrowing from a
/// place held with `given`.
pub open spec fn final_chain(env: SEnv, c: Seq<SRedLink>) -> bool {
    inextensible(c) || borrows_from_given(env, c)
}

/// The chains one expansion step turns `c` into: `c` (or, when it ends by
/// moving from a place, `c` without that link) applied to each chain the
/// permission of the place's type reduces to.
pub open spec fn next_chains(env: SEnv, l: SLivePlaces, c: Seq<SRedLink>, fuel: nat) -> Set<Seq<SRedLink>> {
    match borrowed_place(c) {
        Some(q) => match place_ty_of(env, q) {
            Ok(t) => appended_all(env, set![c], red_chains(env, l, perm_of_ty(t), fuel), fuel),
            Err(_) => Set::empty(),
        },
        None => match moved_place(c) {
            Some(q) => match place_ty_of(env, q) {
                Ok(t) => appended_all(env, set![c.drop_last()], red_chains(env, l, perm_of_ty(t), fuel), fuel),
                Err(_) => Set::empty(),
            },
            None => Set::empty(),
        },
    }
}

/// The fully expanded chains `p` reduces to: each chain it reduces to in
/// one step, expanded (see [`expand_chain`]); `fuel` bounds the number of
/// expansion steps along any line.
pub open spec fn expanded(env: SEnv, l: SLivePlaces, p: SPerm, fuel: nat) -> Set<Seq<SRedLink>>
    decreases fuel, 1nat, 0nat,
{
    expand_chains(env, l, red_chains(env, l, p, fuel), fuel)
}

/// The chains of `cs`, each expanded (in any order: see
/// [`lemma_expand_chains_pick`]).
pub open spec fn expand_chains(env: SEnv, l: SLivePlaces, cs: Set<Seq<SRedLink>>, fuel: nat) -> Set<Seq<SRedLink>>
    decreases fuel, 0nat, cs.len(),
    when cs.finite()
{
    if cs.len() == 0 {
        Set::empty()
    } else {
        let c = cs.choose();
        expand_chain(env, l, c, fuel) + expand_chains(env, l, cs.remove(c), fuel)
    }
}

/// The expansions of one chain `c`: `c` itself when it goes no further or
/// borrows from a place held with `given`, and the expansions of the
/// permission of each chain of the next step.
pub open spec fn expand_chain(env: SEnv, l: SLivePlaces, c: Seq<SRedLink>, fuel: nat) -> Set<Seq<SRedLink>>
    decreases fuel, 0nat, 0nat,
{
    let own = if inextensible(c) || borrows_from_given(env, c) {
        set![c]
    } else {
        Set::empty()
    };
    if fuel == 0 {
        own
    } else {
        own + expand_outs(env, l, next_chains(env, l, c, fuel), (fuel - 1) as nat)
    }
}

/// The expansions of the permissions of the chains `outs`.
pub open spec fn expand_outs(env: SEnv, l: SLivePlaces, outs: Set<Seq<SRedLink>>, fuel: nat) -> Set<Seq<SRedLink>>
    decreases fuel, 2nat, outs.len(),
    when outs.finite()
{
    if outs.len() == 0 {
        Set::empty()
    } else {
        let o = outs.choose();
        expanded(env, l, chain_perm(o), fuel) + expand_outs(env, l, outs.remove(o), fuel)
    }
}

/// Any chain of `cs` can be expanded first.
pub proof fn lemma_expand_chains_pick(env: SEnv, l: SLivePlaces, cs: Set<Seq<SRedLink>>, c: Seq<SRedLink>, fuel: nat)
    requires
        cs.finite(),
        cs.contains(c),
    ensures
        expand_chains(env, l, cs, fuel) == expand_chain(env, l, c, fuel) + expand_chains(env, l, cs.remove(c), fuel),
    decreases cs.len(),
{
    let x = cs.choose();
    assert(cs.len() > 0) by {
        if cs.len() == 0 {
            assert(cs =~= Set::empty());
        }
    }
    if x != c {
        let sx = cs.remove(x);
        let sc = cs.remove(c);
        lemma_expand_chains_pick(env, l, sx, c, fuel);
        lemma_expand_chains_pick(env, l, sc, x, fuel);
        assert(sx.remove(c) =~= sc.remove(x));
        let rest = expand_chains(env, l, sx.remove(c), fuel);
        let ex = expand_chain(env, l, x, fuel);
        let ec = expand_chain(env, l, c, fuel);
        assert(ex + (ec + rest) =~= ec + (ex + rest));
    }
}

/// Adding a chain to `cs` adds its expansions.
pub proof fn lemma_expand_chains_insert(env: SEnv, l: SLivePlaces, cs: Set<Seq<SRedLink>>, c: Seq<SRedLink>, fuel: nat)
    requires
        cs.finite(),
    ensures
        expand_chains(env, l, cs.insert(c), fuel) == expand_chains(env, l, cs, fuel) + expand_chain(env, l, c, fuel),
{
    if cs.contains(c) {
        lemma_expand_chains_pick(env, l, cs, c, fuel);
        assert(cs.insert(c) =~= cs);
        assert(expand_chains(env, l, cs, fuel) + expand_chain(env, l, c, fuel) =~= expand_chains(env, l, cs, fuel));
    } else {
        lemma_expand_chains_pick(env, l, cs.insert(c), c, fuel);
        assert(cs.insert(c).remove(c) =~= cs);
        assert(expand_chain(env, l, c, fuel) + expand_chains(env, l, cs, fuel) =~= expand_chains(env, l, cs, fuel) + expand_chain(env, l, c, fuel));
    }
}

/// Any chain of `outs` can be expanded first.
pub proof fn lemma_expand_outs_pick(env: SEnv, l: SLivePlaces, outs: Set<Seq<SRedLink>>, o: Seq<SRedLink>, fuel: nat)
    requires
        outs.finite(),
        outs.contains(o),
    ensures
        expand_outs(env, l, outs, fuel) == expanded(env, l, chain_perm(o), fuel) + expand_outs(env, l, outs.remove(o), fuel),
    decreases outs.len(),
{
    let x = outs.choose();
    assert(outs.len() > 0) by {
        if outs.len() == 0 {
            assert(outs =~= Set::empty());
        }
    }
    if x != o {
        let sx = outs.remove(x);
        let so = outs.remove(o);
        lemma_expand_outs_pick(env, l, sx, o, fuel);
        lemma_expand_outs_pick(env, l, so, x, fuel);
        assert(sx.remove(o) =~= so.remove(x));
        let rest = expand_outs(env, l, sx.remove(o), fuel);
        let ex = expanded(env, l, chain_perm(x), fuel);
        let eo = expanded(env, l, chain_perm(o), fuel);
        assert(ex + (eo + rest) =~= eo + (ex + rest));
    }
}

/// Adding a chain to `outs` adds the expansions of its permission.
pub proof fn lemma_expand_outs_insert(env: SEnv, l: SLivePlaces, outs: Set<Seq<SRedLink>>, o: Seq<SRedLink>, fuel: nat)
    requires
        outs.finite(),
    ensures
        expand_outs(env, l, outs.insert(o), fuel) == expand_outs(env, l, outs, fuel) + expanded(env, l, chain_perm(o), fuel),
{
    if outs.contains(o) {
        lemma_expand_outs_pick(env, l, outs, o, fuel);
        assert(outs.insert(o) =~= outs);
        assert(expand_outs(env, l, outs, fuel) + expanded(env, l, chain_perm(o), fuel) =~= expand_outs(env, l, outs, fuel));
    } else {
        lemma_expand_outs_pick(env, l, outs.insert(o), o, fuel);
        assert(outs.insert(o).remove(o) =~= outs);
        assert(expanded(env, l, chain_perm(o), fuel) + expand_outs(env, l, outs, fuel) =~= expand_outs(env, l, outs, fuel) + expanded(env, l, chain_perm(o), fuel));
    }
}

pub open spec fn chains_set(v: Seq<RedChain>) -> Set<Seq<SRedLink>> {
    v.map_values(|c: RedChain| c@).to_set()
}

/// Membership in the chains of a list, by index.
pub proof fn lemma_chains_set_contains(v: Seq<RedChain>, x: Seq<SRedLink>)
    ensures
        chains_set(v).contains(x) <==> exists|i: int| 0 <= i < v.len() && #[trigger] v[i]@ == x,
{
    let m = v.map_values(|c: RedChain| c@);
    if chains_set(v).contains(x) {
        let i = choose|i: int| 0 <= i < m.len() && m[i] == x;
        assert(v[i]@ == x);
    }
    if exists|i: int| 0 <= i < v.len() && #[trigger] v[i]@ == x {
        let i = choose|i: int| 0 <= i < v.len() && #[trigger] v[i]@ == x;
        assert(m[i] == x);
        assert(m.contains(x));
    }
}

proof fn lemma_chains_set_push(v: Seq<RedChain>, c: RedChain)
    ensures
        chains_set(v.push(c)) == chains_set(v).insert(c@),
{
    assert forall|x: Seq<SRedLink>| chains_set(v.push(c)).contains(x) <==> chains_set(v).insert(c@).contains(x) by {
        lemma_chains_set_contains(v.push(c), x);
        lemma_chains_set_contains(v, x);
        if exists|i: int| 0 <= i < v.push(c).len() && #[trigger] v.push(c)[i]@ == x {
            let i = choose|i: int| 0 <= i < v.push(c).len() && #[trigger] v.push(c)[i]@ == x;
            if i < v.len() {
                assert(v[i]@ == x);
            }
        }
        if exists|i: int| 0 <= i < v.len() && #[trigger] v[i]@ == x {
            let i = choose|i: int| 0 <= i < v.len() && #[trigger] v[i]@ == x;
            assert(v.push(c)[i]@ == x);
        }
        if x == c@ {
            assert(v.push(c)[v.len() as int]@ == x);
        }
    }
    assert(chains_set(v.push(c)) =~= chains_set(v).insert(c@));
}

proof fn lemma_chains_set_prefix(v: Seq<RedChain>, i: int)
    requires
        0 <= i < v.len(),
    ensures
        chains_set(v.subrange(0, i + 1)) == chains_set(v.subrange(0, i)).insert(v[i]@),
        chains_set(v.subrange(0, i)).finite(),
{
    assert(v.subrange(0, i + 1) =~= v.subrange(0, i).push(v[i]));
    lemma_chains_set_push(v.subrange(0, i), v[i]);
    vstd::seq_lib::seq_to_set_is_finite(v.subrange(0, i).map_values(|c: RedChain| c@));
}

proof fn lemma_chains_set_empty(v: Seq<RedChain>)
    ensures
        chains_set(v.subrange(0, 0)) == Set::<Seq<SRedLink>>::empty(),
{
    assert(chains_set(v.subrange(0, 0)) =~= Set::<Seq<SRedLink>>::empty());
}

/// The chains of `a` followed by those of `b`.
fn append_chain_lists(a: Vec<RedChain>, b: Vec<RedChain>) -> (r: Vec<RedChain>)
    ensures
        chains_set(r@) == chains_set(a@) + chains_set(b@),
        r@ == a@ + b@,
{
    let mut r = a;
    let mut b = b;
    let ghost ra = r@;
    let ghost rb = b@;
    r.append(&mut b);
    proof {
        assert forall|x: Seq<SRedLink>| chains_set(r@).contains(x) <==> (chains_set(ra) + chains_set(rb)).contains(x) by {
            lemma_chains_set_contains(r@, x);
            lemma_chains_set_contains(ra, x);
            lemma_chains_set_contains(rb, x);
            if exists|i: int| 0 <= i < r@.len() && #[trigger] r@[i]@ == x {
                let i = choose|i: int| 0 <= i < r@.len() && #[trigger] r@[i]@ == x;
                if i < ra.len() {
                    assert(ra[i]@ == x);
                } else {
                    assert(rb[i - ra.len()]@ == x);
                }
            }
            if exists|i: int| 0 <= i < ra.len() && #[trigger] ra[i]@ == x {
                let i = choose|i: int| 0 <= i < ra.len() && #[trigger] ra[i]@ == x;
                assert(r@[i]@ == x);
            }
            if exists|i: int| 0 <= i < rb.len() && #[trigger] rb[i]@ == x {
                let i = choose|i: int| 0 <= i < rb.len() && #[trigger] rb[i]@ == x;
                assert(r@[i + ra.len()]@ == x);
            }
        }
        assert(chains_set(r@) =~= chains_set(ra) + chains_set(rb));
    }
    r
}

/// `lhs` applied to `rhs` (see [`appended`]).
pub fn append_chain(env: &Env, lhs: &RedChain, rhs: &RedChain, fuel: usize) -> (r: RedChain)
    ensures
        r@ == appended(env@, lhs@, rhs@, fuel as nat),
{
    let p = Parameter::Perm(rhs.to_perm());
    assert(p@ == SParameter::Perm(chain_perm(rhs@)));
    if prove_is_copy(env, &p, fuel) {
        rhs.copy()
    } else {
        RedChain::concat(lhs, rhs)
    }
}

/// The link by which `place` is reached (see [`kind_link`]).
fn kind_link_exec(live_after: &LivePlaces, k: LinkKind, place: &Place) -> (r: RedLink)
    ensures
        r@ == kind_link(live_after@, k, place@),
{
    match k {
        LinkKind::Mv => RedLink::Mv(place.copy()),
        LinkKind::Rf => if live_after.is_live(place) {
            RedLink::Rfl(place.copy())
        } else {
            RedLink::Rfd(place.copy())
        },
        LinkKind::Mt => if live_after.is_live(place) {
            RedLink::Mtl(place.copy())
        } else {
            RedLink::Mtd(place.copy())
        },
    }
}

/// One single-link chain for each of `places` (see [`link_chains`]).
fn link_chains_exec(live_after: &LivePlaces, k: LinkKind, places: &Vec<Place>) -> (r: Vec<RedChain>)
    ensures
        chains_set(r@) == link_chains(live_after@, k, place_set(places@)),
{
    let mut r: Vec<RedChain> = Vec::new();
    let mut i: usize = 0;
    while i < places.len()
        invariant
            i <= places@.len(),
            r@.len() == i,
            forall|j: int| 0 <= j < i ==> #[trigger] r@[j]@ == seq![kind_link(live_after@, k, places@[j]@)],
        decreases places.len() - i,
    {
        r.push(RedChain::from_link(kind_link_exec(live_after, k, &places[i])));
        i = i + 1;
    }
    proof {
        let s = place_set(places@);
        assert forall|x: Seq<SRedLink>| chains_set(r@).contains(x) <==> link_chains(live_after@, k, s).contains(x) by {
            lemma_chains_set_contains(r@, x);
            if chains_set(r@).contains(x) {
                let j = choose|j: int| 0 <= j < r@.len() && #[trigger] r@[j]@ == x;
                lemma_place_set_contains(places@, places@[j]@);
                assert(s.contains(places@[j]@));
            }
            if link_chains(live_after@, k, s).contains(x) {
                let q = choose|q: SPlace| #[trigger] s.contains(q) && x == seq![kind_link(live_after@, k, q)];
                lemma_place_set_contains(places@, q);
                let j = choose|j: int| 0 <= j < places@.len() && #[trigger] places@[j]@ == q;
                assert(r@[j]@ == x);
            }
        }
        assert(chains_set(r@) =~= link_chains(live_after@, k, s));
    }
    r
}

proof fn lemma_appended_all_insert_left(env: SEnv, ls: Set<Seq<SRedLink>>, a: Seq<SRedLink>, rs: Set<Seq<SRedLink>>, fuel: nat)
    ensures
        appended_all(env, ls.insert(a), rs, fuel) == appended_all(env, ls, rs, fuel) + appended_all(env, set![a], rs, fuel),
{
    let s1 = set![a];
    let li = ls.insert(a);
    assert forall|x: Seq<SRedLink>| appended_all(env, li, rs, fuel).contains(x) implies (appended_all(env, ls, rs, fuel) + appended_all(env, s1, rs, fuel)).contains(x) by {
        let (u, v) = choose|u: Seq<SRedLink>, v: Seq<SRedLink>| #![trigger li.contains(u), rs.contains(v)]
            li.contains(u) && rs.contains(v) && x == appended(env, u, v, fuel);
        if u == a {
            assert(s1.contains(u));
        } else {
            assert(ls.contains(u));
        }
    }
    assert forall|x: Seq<SRedLink>| (appended_all(env, ls, rs, fuel) + appended_all(env, s1, rs, fuel)).contains(x) implies appended_all(env, li, rs, fuel).contains(x) by {
        if appended_all(env, ls, rs, fuel).contains(x) {
            let (u, v) = choose|u: Seq<SRedLink>, v: Seq<SRedLink>| #![trigger ls.contains(u), rs.contains(v)]
                ls.contains(u) && rs.contains(v) && x == appended(env, u, v, fuel);
            assert(li.contains(u));
        } else {
            let (u, v) = choose|u: Seq<SRedLink>, v: Seq<SRedLink>| #![trigger s1.contains(u), rs.contains(v)]
                s1.contains(u) && rs.contains(v) && x == appended(env, u, v, fuel);
            assert(li.contains(u));
        }
    }
    assert(appended_all(env, li, rs, fuel) =~= appended_all(env, ls, rs, fuel) + appended_all(env, s1, rs, fuel));
}

proof fn lemma_appended_all_insert_right(env: SEnv, a: Seq<SRedLink>, rs: Set<Seq<SRedLink>>, b: Seq<SRedLink>, fuel: nat)
    ensures
        appended_all(env, set![a], rs.insert(b), fuel) == appended_all(env, set![a], rs, fuel).insert(appended(env, a, b, fuel)),
{
    let s1 = set![a];
    let ri = rs.insert(b);
    assert forall|x: Seq<SRedLink>| appended_all(env, s1, ri, fuel).contains(x) implies appended_all(env, s1, rs, fuel).insert(appended(env, a, b, fuel)).contains(x) by {
        let (u, v) = choose|u: Seq<SRedLink>, v: Seq<SRedLink>| #![trigger s1.contains(u), ri.contains(v)]
            s1.contains(u) && ri.contains(v) && x == appended(env, u, v, fuel);
        if v != b {
            assert(rs.contains(v));
        }
    }
    assert forall|x: Seq<SRedLink>| appended_all(env, s1, rs, fuel).insert(appended(env, a, b, fuel)).contains(x) implies appended_all(env, s1, ri, fuel).contains(x) by {
        if appended_all(env, s1, rs, fuel).contains(x) {
            let (u, v) = choose|u: Seq<SRedLink>, v: Seq<SRedLink>| #![trigger s1.contains(u), rs.contains(v)]
                s1.contains(u) && rs.contains(v) && x == appended(env, u, v, fuel);
            assert(ri.contains(v));
        } else {
            assert(s1.contains(a) && ri.contains(b));
        }
    }
    assert(appended_all(env, s1, ri, fuel) =~= appended_all(env, s1, rs, fuel).insert(appended(env, a, b, fuel)));
}

/// `lhs` applied to each chain of `rs`.
fn append_one_exec(env: &Env, lhs: &RedChain, rs: &Vec<RedChain>, fuel: usize) -> (r: Vec<RedChain>)
    ensures
        chains_set(r@) == appended_all(env@, set![lhs@], chains_set(rs@), fuel as nat),
{
    let mut r: Vec<RedChain> = Vec::new();
    let mut j: usize = 0;
    proof {
        lemma_chains_set_empty(rs@);
        assert(appended_all(env@, set![lhs@], Set::empty(), fuel as nat) =~= Set::<Seq<SRedLink>>::empty());
        assert(chains_set(r@) =~= Set::<Seq<SRedLink>>::empty());
    }
    while j < rs.len()
        invariant
            j <= rs@.len(),
            chains_set(r@) == appended_all(env@, set![lhs@], chains_set(rs@.subrange(0, j as int)), fuel as nat),
        decreases rs.len() - j,
    {
        let c = append_chain(env, lhs, &rs[j], fuel);
        proof {
            lemma_chains_set_prefix(rs@, j as int);
            lemma_chains_set_push(r@, c);
            lemma_appended_all_insert_right(env@, lhs@, chains_set(rs@.subrange(0, j as int)), rs@[j as int]@, fuel as nat);
        }
        r.push(c);
        j = j + 1;
    }
    assert(rs@.subrange(0, rs@.len() as int) =~= rs@);
    r
}

/// Each chain of `ls` applied to each chain of `rs` (see [`appended_all`]).
fn append_all_exec(env: &Env, ls: &Vec<RedChain>, rs: &Vec<RedChain>, fuel: usize) -> (r: Vec<RedChain>)
    ensures
        chains_set(r@) == appended_all(env@, chains_set(ls@), chains_set(rs@), fuel as nat),
{
    let mut r: Vec<RedChain> = Vec::new();
    let mut i: usize = 0;
    proof {
        lemma_chains_set_empty(ls@);
        assert(appended_all(env@, Set::empty(), chains_set(rs@), fuel as nat) =~= Set::<Seq<SRedLink>>::empty());
        assert(chains_set(r@) =~= Set::<Seq<SRedLink>>::empty());
    }
    while i < ls.len()
        invariant
            i <= ls@.len(),
            chains_set(r@) == appended_all(env@, chains_set(ls@.subrange(0, i as int)), chains_set(rs@), fuel as nat),
        decreases ls.len() - i,
    {
        let one = append_one_exec(env, &ls[i], rs, fuel);
        proof {
            lemma_chains_set_prefix(ls@, i as int);
            lemma_appended_all_insert_left(env@, chains_set(ls@.subrange(0, i as int)), ls@[i as int]@, chains_set(rs@), fuel as nat);
        }
        r = append_chain_lists(r, one);
        i = i + 1;
    }
    assert(ls@.subrange(0, ls@.len() as int) =~= ls@);
    r
}

/// Every chain `perm` reduces to in one step (see [`red_chains`]).
pub fn some_red_chain(env: &Env, live_after: &LivePlaces, perm: &Perm, fuel: usize) -> (r: Vec<RedChain>)
    ensures
        chains_set(r@) == red_chains(env@, live_after@, perm@, fuel as nat),
    decreases perm,
{
    match perm {
        Perm::Given => {
            let r = vec![RedChain::given()];
            proof {
                lemma_chains_set_push(Seq::empty(), r@[0]);
                assert(r@ =~= Seq::<RedChain>::empty().push(r@[0]));
                assert(chains_set(Seq::<RedChain>::empty()) =~= Set::empty());
            }
            r
        },
        Perm::Shared => {
            let r = vec![RedChain::from_link(RedLink::Shared)];
            proof {
                lemma_chains_set_push(Seq::empty(), r@[0]);
                assert(r@ =~= Seq::<RedChain>::empty().push(r@[0]));
                assert(chains_set(Seq::<RedChain>::empty()) =~= Set::empty());
            }
            r
        },
        Perm::Var(v) => {
            let r = vec![RedChain::from_link(RedLink::Var(*v))];
            proof {
                lemma_chains_set_push(Seq::empty(), r@[0]);
                assert(r@ =~= Seq::<RedChain>::empty().push(r@[0]));
                assert(chains_set(Seq::<RedChain>::empty()) =~= Set::empty());
            }
            r
        },
        Perm::Mv(places) => link_chains_exec(live_after, LinkKind::Mv, places),
        Perm::Rf(places) => link_chains_exec(live_after, LinkKind::Rf, places),
        Perm::Mt(places) => link_chains_exec(live_after, LinkKind::Mt, places),
        Perm::Apply(a, b) => {
            let ls = some_red_chain(env, live_after, a, fuel);
            let rs = some_red_chain(env, live_after, b, fuel);
            assert(perm@ == SPerm::Apply(Box::new(a@), Box::new(b@)));
            append_all_exec(env, &ls, &rs, fuel)
        },
        Perm::Or(_) => {
            let r: Vec<RedChain> = Vec::new();
            assert(chains_set(r@) =~= Set::empty());
            assert(perm@ is Or);
            r
        },
    }
}

/// The permission type `t` is held with (see [`perm_of_ty`]).
fn perm_of_ty_exec(t: &Ty) -> (r: Perm)
    ensures
        r@ == perm_of_ty(t@),
{
    match t {
        Ty::ApplyPerm(p, _) => p.copy(),
        _ => Perm::Given,
    }
}

/// True if `c` goes no further (see [`inextensible`]).
fn inextensible_exec(c: &RedChain) -> (r: bool)
    ensures
        r == inextensible(c@),
{
    let n = c.links.len();
    if n == 0 {
        true
    } else {
        assert(c@.last() == c.links@[n - 1]@);
        match &c.links[n - 1] {
            RedLink::Shared | RedLink::Var(_) => true,
            _ => false,
        }
    }
}

/// The place the last link of `c` borrows from (see [`borrowed_place`]).
fn borrowed_place_exec(c: &RedChain) -> (r: Option<Place>)
    ensures
        match borrowed_place(c@) {
            Some(q) => r matches Some(p) && p@ == q,
            None => r is None,
        },
{
    let n = c.links.len();
    if n == 0 {
        return None;
    }
    assert(c@.last() == c.links@[n - 1]@);
    match &c.links[n - 1] {
        RedLink::Rfl(q) | RedLink::Rfd(q) | RedLink::Mtl(q) | RedLink::Mtd(q) => Some(q.copy()),
        _ => None,
    }
}

/// The place the last link of `c` moves from (see [`moved_place`]).
fn moved_place_exec(c: &RedChain) -> (r: Option<Place>)
    ensures
        match moved_place(c@) {
            Some(q) => r matches Some(p) && p@ == q,
            None => r is None,
        },
{
    let n = c.links.len();
    if n == 0 {
        return None;
    }
    assert(c@.last() == c.links@[n - 1]@);
    match &c.links[n - 1] {
        RedLink::Mv(q) => Some(q.copy()),
        _ => None,
    }
}

/// True if `c` ends borrowing from a place held with `given` (see
/// [`borrows_from_given`]).
fn borrows_from_given_exec(env: &Env, c: &RedChain) -> (r: bool)
    ensures
        r == borrows_from_given(env@, c@),
{
    match borrowed_place_exec(c) {
        None => false,
        Some(q) => match env.place_ty(&q) {
            Err(_) => false,
            Ok(t) => {
                let p = perm_of_ty_exec(&t);
                match p {
                    Perm::Given => true,
                    _ => false,
                }
            },
        },
    }
}

/// The chains one expansion step turns `c` into (see [`next_chains`]).
fn next_chains_exec(env: &Env, live_after: &LivePlaces, c: &RedChain, fuel: usize) -> (r: Vec<RedChain>)
    ensures
        chains_set(r@) == next_chains(env@, live_after@, c@, fuel as nat),
{
    let none: Vec<RedChain> = Vec::new();
    assert(chains_set(none@) =~= Set::empty());
    match borrowed_place_exec(c) {
        Some(q) => match env.place_ty(&q) {
            Ok(t) => {
                let rs = some_red_chain(env, live_after, &perm_of_ty_exec(&t), fuel);
                append_one_exec(env, c, &rs, fuel)
            },
            Err(_) => none,
        },
        None => match moved_place_exec(c) {
            Some(q) => match env.place_ty(&q) {
                Ok(t) => {
                    let rs = some_red_chain(env, live_after, &perm_of_ty_exec(&t), fuel);
                    match pop_link(c) {
                        Some((head, _)) => append_one_exec(env, &head, &rs, fuel),
                        None => none,
                    }
                },
                Err(_) => none,
            },
            None => none,
        },
    }
}

/// Every fully expanded chain `perm` reduces to (see [`expanded`]).
pub fn some_expanded_red_chain(env: &Env, live_after: &LivePlaces, perm: &Perm, fuel: usize) -> (r: Vec<RedChain>)
    ensures
        chains_set(r@) == expanded(env@, live_after@, perm@, fuel as nat),
        forall|i: int| 0 <= i < r@.len() ==> final_chain(env@, #[trigger] r@[i]@),
    decreases fuel, 2nat,
{
    let cs = some_red_chain(env, live_after, perm, fuel);
    expand_chains_exec(env, live_after, &cs, fuel)
}

/// The chains of `cs`, each expanded (see [`expand_chains`]).
fn expand_chains_exec(env: &Env, live_after: &LivePlaces, cs: &Vec<RedChain>, fuel: usize) -> (r: Vec<RedChain>)
    ensures
        chains_set(r@) == expand_chains(env@, live_after@, chains_set(cs@), fuel as nat),
        forall|i: int| 0 <= i < r@.len() ==> final_chain(env@, #[trigger] r@[i]@),
    decreases fuel, 1nat,
{
    let mut acc: Vec<RedChain> = Vec::new();
    proof {
        lemma_chains_set_empty(cs@);
        assert(chains_set(acc@) =~= Set::<Seq<SRedLink>>::empty());
        assert(expand_chains(env@, live_after@, Set::empty(), fuel as nat) == Set::<Seq<SRedLink>>::empty());
    }
    let mut i: usize = 0;
    while i < cs.len()
        invariant
            i <= cs@.len(),
            chains_set(acc@) == expand_chains(env@, live_after@, chains_set(cs@.subrange(0, i as int)), fuel as nat),
            forall|j: int| 0 <= j < acc@.len() ==> final_chain(env@, #[trigger] acc@[j]@),
        decreases cs.len() - i,
    {
        let one = expand_chain_exec(env, live_after, &cs[i], fuel);
        proof {
            lemma_chains_set_prefix(cs@, i as int);
            lemma_expand_chains_insert(env@, live_after@, chains_set(cs@.subrange(0, i as int)), cs@[i as int]@, fuel as nat);
        }
        acc = append_chain_lists(acc, one);
        i = i + 1;
    }
    assert(cs@.subrange(0, cs@.len() as int) =~= cs@);
    acc
}

/// The expansions of one chain (see [`expand_chain`]).
fn expand_chain_exec(env: &Env, live_after: &LivePlaces, c: &RedChain, fuel: usize) -> (r: Vec<RedChain>)
    ensures
        chains_set(r@) == expand_chain(env@, live_after@, c@, fuel as nat),
        forall|i: int| 0 <= i < r@.len() ==> final_chain(env@, #[trigger] r@[i]@),
    decreases fuel, 0nat,
{
    let mut own: Vec<RedChain> = Vec::new();
    if inextensible_exec(c) || borrows_from_given_exec(env, c) {
        own.push(c.copy());
        proof {
            lemma_chains_set_push(Seq::empty(), own@[0]);
            assert(own@ =~= Seq::<RedChain>::empty().push(own@[0]));
            assert(chains_set(Seq::<RedChain>::empty()) =~= Set::empty());
            assert(Set::<Seq<SRedLink>>::empty().insert(c@) =~= set![c@]);
        }
    } else {
        assert(chains_set(own@) =~= Set::empty());
    }
    if fuel == 0 {
        return own;
    }
    let nexts = next_chains_exec(env, live_after, c, fuel);
    let more = expand_outs_exec(env, live_after, &nexts, fuel - 1);
    append_chain_lists(own, more)
}

/// The expansions of the permissions of the chains `outs` (see
/// [`expand_outs`]).
fn expand_outs_exec(env: &Env, live_after: &LivePlaces, outs: &Vec<RedChain>, fuel: usize) -> (r: Vec<RedChain>)
    ensures
        chains_set(r@) == expand_outs(env@, live_after@, chains_set(outs@), fuel as nat),
        forall|i: int| 0 <= i < r@.len() ==> final_chain(env@, #[trigger] r@[i]@),
    decreases fuel, 3nat,
{
    let mut acc: Vec<RedChain> = Vec::new();
    proof {
        lemma_chains_set_empty(outs@);
        assert(chains_set(acc@) =~= Set::<Seq<SRedLink>>::empty());
        assert(expand_outs(env@, live_after@, Set::empty(), fuel as nat) == Set::<Seq<SRedLink>>::empty());
    }
    let mut i: usize = 0;
    while i < outs.len()
        invariant
            i <= outs@.len(),
            chains_set(acc@) == expand_outs(env@, live_after@, chains_set(outs@.subrange(0, i as int)), fuel as nat),
            forall|j: int| 0 <= j < acc@.len() ==> final_chain(env@, #[trigger] acc@[j]@),
        decreases outs.len() - i,
    {
        let p = outs[i].to_perm();
        let one = some_expanded_red_chain(env, live_after, &p, fuel);
        proof {
            lemma_chains_set_prefix(outs@, i as int);
            lemma_expand_outs_insert(env@, live_after@, chains_set(outs@.subrange(0, i as int)), outs@[i as int]@, fuel as nat);
        }
        acc = append_chain_lists(acc, one);
        i = i + 1;
    }
    assert(outs@.subrange(0, outs@.len() as int) =~= outs@);
    acc
}

/// The chains of `v`, each once.
fn distinct_chains(v: &Vec<RedChain>) -> (r: Vec<RedChain>)
    ensures
        chains_set(r@) == chains_set(v@),
        forall|x: int, y: int| 0 <= x < y < r@.len() ==> r@[x]@ != r@[y]@,
{
    let mut r: Vec<RedChain> = Vec::new();
    let mut i: usize = 0;
    while i < v.len()
        invariant
            i <= v@.len(),
            forall|x: int, y: int| 0 <= x < y < r@.len() ==> r@[x]@ != r@[y]@,
            forall|x: Seq<SRedLink>| chains_set(r@).contains(x) <==> exists|j: int| 0 <= j < i && #[trigger] v@[j]@ == x,
        decreases v.len() - i,
    {
        let mut found = false;
        let mut k: usize = 0;
        while k < r.len()
            invariant
                i < v@.len(),
                k <= r@.len(),
                found ==> exists|m: int| 0 <= m < r@.len() && r@[m]@ == v@[i as int]@,
                !found ==> forall|m: int| 0 <= m < k ==> r@[m]@ != v@[i as int]@,
            decreases r.len() - k,
        {
            if r[k].same(&v[i]) {
                found = true;
            }
            k = k + 1;
        }
        let ghost old_r = r@;
        if !found {
            r.push(v[i].copy());
        }
        proof {
            assert forall|x: Seq<SRedLink>| chains_set(r@).contains(x) <==> exists|j: int| 0 <= j < i + 1 && #[trigger] v@[j]@ == x by {
                lemma_chains_set_contains(r@, x);
                lemma_chains_set_contains(old_r, x);
                if chains_set(r@).contains(x) {
                    let m = choose|m: int| 0 <= m < r@.len() && #[trigger] r@[m]@ == x;
                    if m < old_r.len() {
                        assert(old_r[m]@ == x);
                    } else {
                        assert(v@[i as int]@ == x);
                    }
                }
                if exists|j: int| 0 <= j < i + 1 && #[trigger] v@[j]@ == x {
                    let j = choose|j: int| 0 <= j < i + 1 && #[trigger] v@[j]@ == x;
                    if j < i {
                        let m = choose|m: int| 0 <= m < old_r.len() && #[trigger] old_r[m]@ == x;
                        assert(r@[m]@ == x);
                    } else if found {
                        let m = choose|m: int| 0 <= m < old_r.len() && old_r[m]@ == v@[i as int]@;
                        assert(r@[m]@ == x);
                    } else {
                        assert(r@[old_r.len() as int]@ == x);
                    }
                }
            }
        }
        i = i + 1;
    }
    proof {
        assert forall|x: Seq<SRedLink>| chains_set(r@).contains(x) <==> chains_set(v@).contains(x) by {
            lemma_chains_set_contains(v@, x);
        }
        assert(chains_set(r@) =~= chains_set(v@));
    }
    r
}

/// Reduces `perm` to the set of its fully expanded chains (see
/// [`expanded`]), each listed once; `None` when it reduces to none (a
/// choice among permissions, an unknown place, or fuel run out on every
/// line).
pub fn red_perm(env: &Env, live_after: &LivePlaces, perm: &Perm, fuel: usize) -> (r: Option<RedPerm>)
    ensures
        r is Some <==> expanded(env@, live_after@, perm@, fuel as nat) != Set::<Seq<SRedLink>>::empty(),
        r matches Some(rp) ==> rp@.to_set() == expanded(env@, live_after@, perm@, fuel as nat) && rp@.no_duplicates(),
        r matches Some(rp) ==> forall|i: int| 0 <= i < rp@.len() ==> final_chain(env@, #[trigger] rp@[i]),
{
    let all = some_expanded_red_chain(env, live_after, perm, fuel);
    let chains = distinct_chains(&all);
    if chains.len() == 0 {
        assert(chains_set(chains@) =~= Set::empty());
        None
    } else {
        proof {
            lemma_chains_set_contains(chains@, chains@[0]@);
        }
        let rp = RedPerm { chains };
        assert forall|i: int| 0 <= i < rp@.len() implies final_chain(env@, #[trigger] rp@[i]) by {
            lemma_chains_set_contains(rp.chains@, rp@[i]);
            assert(chains_set(rp.chains@).contains(rp.chains@[i]@));
            lemma_chains_set_contains(all@, rp@[i]);
            let j = choose|j: int| 0 <= j < all@.len() && #[trigger] all@[j]@ == rp@[i];
        }
        assert(rp@.no_duplicates()) by {
            assert forall|x: int, y: int| 0 <= x < rp@.len() && 0 <= y < rp@.len() && x != y implies rp@[x] != rp@[y] by {
                if x < y {
                    assert(rp.chains@[x]@ != rp.chains@[y]@);
                } else {
                    assert(rp.chains@[y]@ != rp.chains@[x]@);
                }
            }
        }
        Some(rp)
    }
}

// ---------------------------------------------------------------------------
// Comparing reduced chains
// ---------------------------------------------------------------------------

/// The permission of chain `c` provably satisfies `k`.
pub open spec fn chain_has(env: SEnv, k: ParameterPredicate, c: Seq<SRedLink>, fuel: nat) -> bool {
    provable(env, pp(k, SParameter::Perm(chain_perm(c))), fuel)
}

/// Place `a` can stand where place `b` is expected: they are the same, or
/// `a` is a field of a place that can, reached from `b` through fields held
/// with `given`.
pub open spec fn place_sub_place(env: SEnv, a: SPlace, b: SPlace, fuel: nat) -> bool
    decreases a.projections.len(),
{
    ||| a == b
    ||| {
        &&& is_prefix(b, a)
        &&& a.projections.len() > 0
        &&& owner_and_field_ty_of(env, a) matches Ok((Some(_), ft))
        &&& provable(env, pp(ParameterPredicate::Given, SParameter::Perm(perm_of_ty(ft))), fuel)
        &&& place_sub_place(env, prefix_place(a, a.projections.len() - 1), b, fuel)
    }
}

/// A measure that decreases when a dead share at the head of a chain
/// becomes shared ownership.
pub open spec fn head_rank(a: Seq<SRedLink>) -> nat {
    if a.len() > 0 && a[0] is Rfd {
        1
    } else {
        0
    }
}

/// The link is a mutable borrow, live or dead.
pub open spec fn is_mt(l: SRedLink) -> bool {
    l is Mtl || l is Mtd
}

/// The link is a shared borrow, live or dead.
pub open spec fn is_rf(l: SRedLink) -> bool {
    l is Rfl || l is Rfd
}

/// The place a borrow or move link goes through.
pub open spec fn link_place(l: SRedLink) -> SPlace {
    match l {
        SRedLink::Rfl(p) => p,
        SRedLink::Rfd(p) => p,
        SRedLink::Mtl(p) => p,
        SRedLink::Mtd(p) => p,
        SRedLink::Mv(p) => p,
        _ => arbitrary(),
    }
}

/// A dead borrow of `q` followed by `tail` can be dropped (or weakened to
/// shared ownership): the type of `q` can be shared and `tail` is mutable.
pub open spec fn dead_borrow_droppable(env: SEnv, q: SPlace, tail: Seq<SRedLink>, fuel: nat) -> bool {
    place_ty_of(env, q) matches Ok(t) && provable(env, pp(ParameterPredicate::Share, SParameter::Ty(t)), fuel)
        && chain_has(env, ParameterPredicate::Mut, tail, fuel)
}

/// Chain `a` can stand where chain `b` is expected, by one of these rules:
/// both are `given`; `a` is one shared or variable link that is shared and
/// `b` is copy; a dead lease at the head of `a` is dropped, or a dead share
/// becomes shared ownership (see [`dead_borrow_droppable`]); both start
/// with leases (or both with shares) of places one of which can stand for
/// the other; `a` starts with a share and `b` with shared ownership of a
/// lease of such places; `a` starts with shared ownership and `b` with a
/// copy link; or both start with the same variable; and in each of the
/// last cases the rests compare the same way.
pub open spec fn sub_chain(env: SEnv, a: Seq<SRedLink>, b: Seq<SRedLink>, fuel: nat) -> bool
    decreases a.len() + b.len(), head_rank(a),
{
    let ta = if a.len() > 0 { a.subrange(1, a.len() as int) } else { a };
    let tb = if b.len() > 0 { b.subrange(1, b.len() as int) } else { b };
    ||| chain_has(env, ParameterPredicate::Given, a, fuel) && chain_has(env, ParameterPredicate::Given, b, fuel)
    ||| a.len() == 1 && (a[0] is Shared || a[0] is Var) && chain_has(env, ParameterPredicate::Shared, a, fuel)
        && chain_has(env, ParameterPredicate::Copy, b, fuel)
    ||| a.len() > 0 && a[0] is Mtd && dead_borrow_droppable(env, a[0]->Mtd_0, ta, fuel) && sub_chain(env, ta, b, fuel)
    ||| a.len() > 0 && a[0] is Rfd && dead_borrow_droppable(env, a[0]->Rfd_0, ta, fuel)
        && sub_chain(env, seq![SRedLink::Shared] + ta, b, fuel)
    ||| a.len() > 0 && b.len() > 0 && is_mt(a[0]) && is_mt(b[0]) && place_sub_place(env, link_place(a[0]), link_place(b[0]), fuel)
        && sub_chain(env, ta, tb, fuel)
    ||| a.len() > 0 && b.len() > 0 && is_rf(a[0]) && is_rf(b[0]) && place_sub_place(env, link_place(a[0]), link_place(b[0]), fuel)
        && sub_chain(env, ta, tb, fuel)
    ||| a.len() > 0 && b.len() > 1 && is_rf(a[0]) && b[0] is Shared && is_mt(b[1])
        && place_sub_place(env, link_place(a[0]), link_place(b[1]), fuel) && sub_chain(env, ta, b.subrange(2, b.len() as int), fuel)
    ||| a.len() > 0 && b.len() > 0 && chain_has(env, ParameterPredicate::Shared, seq![a[0]], fuel)
        && chain_has(env, ParameterPredicate::Copy, seq![b[0]], fuel) && sub_chain(env, ta, tb, fuel)
    ||| a.len() > 0 && b.len() > 0 && a[0] is Var && b[0] is Var && a[0]->Var_0 == b[0]->Var_0 && sub_chain(env, ta, tb, fuel)
}

/// Permission `a` can stand where `b` is expected: both reduce (see
/// [`expanded`]), and each chain of `a` can stand for some chain of `b`.
pub open spec fn sub_red(env: SEnv, l: SLivePlaces, a: SPerm, b: SPerm, fuel: nat) -> bool {
    let ca = expanded(env, l, a, fuel);
    let cb = expanded(env, l, b, fuel);
    &&& ca != Set::<Seq<SRedLink>>::empty()
    &&& cb != Set::<Seq<SRedLink>>::empty()
    &&& forall|x: Seq<SRedLink>| #[trigger] ca.contains(x) ==> exists|y: Seq<SRedLink>| #[trigger] cb.contains(y) && sub_chain(env, x, y, fuel)
}

/// True if the permission of `c` provably satisfies `k`.
fn chain_has_exec(env: &Env, k: ParameterPredicate, c: &RedChain, fuel: usize) -> (r: bool)
    ensures
        r == chain_has(env@, k, c@, fuel as nat),
{
    let p = Parameter::Perm(c.to_perm());
    crate::predicates::prove_predicate(env, &crate::grammar::Predicate::Parameter(k, p), fuel)
}

/// True if place `a` can stand where `b` is expected (see [`place_sub_place`]).
pub fn place_sub_place_exec(env: &Env, a: &Place, b: &Place, fuel: usize) -> (r: bool)
    ensures
        r == place_sub_place(env@, a@, b@, fuel as nat),
    decreases a@.projections.len(),
{
    if a.same(b) {
        return true;
    }
    if !b.is_prefix_of(a) || a.projections.len() == 0 {
        return false;
    }
    let owner = match a.owner() {
        Some(o) => o,
        None => return false,
    };
    match env.owner_and_field_ty(a) {
        Ok((Some(_), ft)) => {
            let fp = Parameter::Perm(perm_of_ty_exec(&ft));
            if !crate::predicates::prove_predicate(env, &crate::grammar::Predicate::Parameter(ParameterPredicate::Given, fp), fuel) {
                return false;
            }
            place_sub_place_exec(env, &owner, b, fuel)
        },
        _ => false,
    }
}

/// True if a dead borrow of `q` followed by `tail` can be dropped (see
/// [`dead_borrow_droppable`]).
fn dead_borrow_droppable_exec(env: &Env, q: &Place, tail: &RedChain, fuel: usize) -> (r: bool)
    ensures
        r == dead_borrow_droppable(env@, q@, tail@, fuel as nat),
{
    match env.place_ty(q) {
        Err(_) => false,
        Ok(t) => {
            let tp = Parameter::Ty(t);
            crate::predicates::prove_is_shareable(env, &tp, fuel) && chain_has_exec(env, ParameterPredicate::Mut, tail, fuel)
        },
    }
}

/// True if chain `a` can stand where `b` is expected (see [`sub_chain`]).
pub fn red_chain_sub_chain(env: &Env, a: &RedChain, b: &RedChain, fuel: usize) -> (r: bool)
    ensures
        r == sub_chain(env@, a@, b@, fuel as nat),
    decreases a@.len() + b@.len(), head_rank(a@),
{
    let ghost ta = if a@.len() > 0 { a@.subrange(1, a@.len() as int) } else { a@ };
    let ghost tb = if b@.len() > 0 { b@.subrange(1, b@.len() as int) } else { b@ };
    let na = a.links.len();
    let nb = b.links.len();
    if chain_has_exec(env, ParameterPredicate::Given, a, fuel) && chain_has_exec(env, ParameterPredicate::Given, b, fuel) {
        return true;
    }
    if na == 0 {
        assert(!sub_chain(env@, a@, b@, fuel as nat));
        return false;
    }
    assert(a@[0] == a.links@[0]@);
    let ta_chain = a.suffix(1);
    if na == 1 {
        let single = match &a.links[0] {
            RedLink::Shared | RedLink::Var(_) => true,
            _ => false,
        };
        if single && chain_has_exec(env, ParameterPredicate::Shared, a, fuel) && chain_has_exec(env, ParameterPredicate::Copy, b, fuel) {
            return true;
        }
    }
    match &a.links[0] {
        RedLink::Mtd(q) => {
            if dead_borrow_droppable_exec(env, q, &ta_chain, fuel) && red_chain_sub_chain(env, &ta_chain, b, fuel) {
                return true;
            }
        },
        RedLink::Rfd(q) => {
            if dead_borrow_droppable_exec(env, q, &ta_chain, fuel) {
                let shared = RedChain::cons(RedLink::Shared, ta_chain.copy());
                assert(head_rank(shared@) == 0);
                if red_chain_sub_chain(env, &shared, b, fuel) {
                    return true;
                }
            }
        },
        _ => {},
    }
    let a_our = chain_has_exec(env, ParameterPredicate::Shared, &RedChain::from_link(a.links[0].copy()), fuel);
    if nb == 0 {
        assert(!sub_chain(env@, a@, b@, fuel as nat));
        return false;
    }
    assert(b@[0] == b.links@[0]@);
    let tb_chain = b.suffix(1);
    let a_mt = match &a.links[0] {
        RedLink::Mtl(_) | RedLink::Mtd(_) => true,
        _ => false,
    };
    let a_rf = match &a.links[0] {
        RedLink::Rfl(_) | RedLink::Rfd(_) => true,
        _ => false,
    };
    let b_mt = match &b.links[0] {
        RedLink::Mtl(_) | RedLink::Mtd(_) => true,
        _ => false,
    };
    let b_rf = match &b.links[0] {
        RedLink::Rfl(_) | RedLink::Rfd(_) => true,
        _ => false,
    };
    if (a_mt && b_mt) || (a_rf && b_rf) {
        let pa = link_place_exec(&a.links[0]);
        let pb = link_place_exec(&b.links[0]);
        if place_sub_place_exec(env, &pa, &pb, fuel) && red_chain_sub_chain(env, &ta_chain, &tb_chain, fuel) {
            return true;
        }
    }
    if a_rf && nb > 1 {
        assert(b@[1] == b.links@[1]@);
        let b_shared = match &b.links[0] {
            RedLink::Shared => true,
            _ => false,
        };
        let b1_mt = match &b.links[1] {
            RedLink::Mtl(_) | RedLink::Mtd(_) => true,
            _ => false,
        };
        if b_shared && b1_mt {
            let pa = link_place_exec(&a.links[0]);
            let pb = link_place_exec(&b.links[1]);
            let rest = b.suffix(2);
            if place_sub_place_exec(env, &pa, &pb, fuel) && red_chain_sub_chain(env, &ta_chain, &rest, fuel) {
                return true;
            }
        }
    }
    if a_our && chain_has_exec(env, ParameterPredicate::Copy, &RedChain::from_link(b.links[0].copy()), fuel)
        && red_chain_sub_chain(env, &ta_chain, &tb_chain, fuel) {
        return true;
    }
    match (&a.links[0], &b.links[0]) {
        (RedLink::Var(va), RedLink::Var(vb)) => {
            if *va == *vb && red_chain_sub_chain(env, &ta_chain, &tb_chain, fuel) {
                return true;
            }
        },
        _ => {},
    }
    false
}

/// The place a borrow or move link goes through (see [`link_place`]).
fn link_place_exec(l: &RedLink) -> (r: Place)
    requires
        !(l@ is Shared) && !(l@ is Var),
    ensures
        r@ == link_place(l@),
{
    match l {
        RedLink::Rfl(p) | RedLink::Rfd(p) | RedLink::Mtl(p) | RedLink::Mtd(p) | RedLink::Mv(p) => p.copy(),
        RedLink::Shared | RedLink::Var(_) => {
            assert(false);
            Place::from_var(crate::grammar::Var::This)
        },
    }
}

/// True if chain `a` can stand for some chain of `bs`.
pub fn red_chain_sub_perm(env: &Env, a: &RedChain, bs: &RedPerm, fuel: usize) -> (r: bool)
    ensures
        r == exists|j: int| 0 <= j < bs@.len() && sub_chain(env@, a@, #[trigger] bs@[j], fuel as nat),
{
    let mut j: usize = 0;
    while j < bs.chains.len()
        invariant
            j <= bs@.len(),
            bs@.len() == bs.chains@.len(),
            forall|k: int| 0 <= k < j ==> !sub_chain(env@, a@, #[trigger] bs@[k], fuel as nat),
        decreases bs.chains.len() - j,
    {
        assert(bs@[j as int] == bs.chains@[j as int]@);
        if red_chain_sub_chain(env, a, &bs.chains[j], fuel) {
            return true;
        }
        j = j + 1;
    }
    false
}

/// True if permission `a` can stand where `b` is expected (see [`sub_red`]).
pub fn sub_red_perms(env: &Env, live_after: &LivePlaces, a: &Perm, b: &Perm, fuel: usize) -> (r: bool)
    ensures
        r == sub_red(env@, live_after@, a@, b@, fuel as nat),
{
    let ghost ca = expanded(env@, live_after@, a@, fuel as nat);
    let ghost cb = expanded(env@, live_after@, b@, fuel as nat);
    let ra = match red_perm(env, live_after, a, fuel) {
        None => return false,
        Some(r) => r,
    };
    let rb = match red_perm(env, live_after, b, fuel) {
        None => return false,
        Some(r) => r,
    };
    let mut i: usize = 0;
    while i < ra.chains.len()
        invariant
            ca == expanded(env@, live_after@, a@, fuel as nat),
            cb == expanded(env@, live_after@, b@, fuel as nat),
            ra@.to_set() == ca,
            rb@.to_set() == cb,
            ra@.len() == ra.chains@.len(),
            i <= ra@.len(),
            forall|k: int| 0 <= k < i ==> exists|y: Seq<SRedLink>| #[trigger] cb.contains(y) && sub_chain(env@, #[trigger] ra@[k], y, fuel as nat),
        decreases ra.chains.len() - i,
    {
        assert(ra@[i as int] == ra.chains@[i as int]@);
        if !red_chain_sub_perm(env, &ra.chains[i], &rb, fuel) {
            proof {
                let x = ra@[i as int];
                assert(ra@.contains(x));
                assert forall|y: Seq<SRedLink>| #[trigger] cb.contains(y) implies !sub_chain(env@, x, y, fuel as nat) by {
                    assert(rb@.contains(y));
                    let j = choose|j: int| 0 <= j < rb@.len() && rb@[j] == y;
                    assert(!sub_chain(env@, ra.chains@[i as int]@, rb@[j], fuel as nat));
                }
                assert(ca.contains(x));
                assert(!(exists|y: Seq<SRedLink>| #[trigger] cb.contains(y) && sub_chain(env@, x, y, fuel as nat)));
                assert(!(forall|z: Seq<SRedLink>| #[trigger] ca.contains(z) ==> exists|y: Seq<SRedLink>| #[trigger] cb.contains(y) && sub_chain(env@, z, y, fuel as nat)));
                assert(!sub_red(env@, live_after@, a@, b@, fuel as nat));
            }
            return false;
        }
        proof {
            let j = choose|j: int| 0 <= j < rb@.len() && sub_chain(env@, ra.chains@[i as int]@, #[trigger] rb@[j], fuel as nat);
            assert(cb.contains(rb@[j]));
        }
        i = i + 1;
    }
    proof {
        assert forall|x: Seq<SRedLink>| #[trigger] ca.contains(x) implies exists|y: Seq<SRedLink>| #[trigger] cb.contains(y) && sub_chain(env@, x, y, fuel as nat) by {
            let k = choose|k: int| 0 <= k < ra@.len() && ra@[k] == x;
        }
    }
    true
}

/// Comparing reduced chains is reflexive: every chain without moves can
/// stand for itself.
pub proof fn law_sub_chain_reflexive(env: SEnv, c: Seq<SRedLink>, fuel: nat)
    requires
        forall|i: int| 0 <= i < c.len() ==> !(#[trigger] c[i] is Mv),
    ensures
        sub_chain(env, c, c, fuel),
    decreases c.len(),
{
    law_given_and_shared(env, fuel);
    if c.len() > 0 {
        let t = c.subrange(1, c.len() as int);
        assert forall|i: int| 0 <= i < t.len() implies !(#[trigger] t[i] is Mv) by {
            assert(t[i] == c[i + 1]);
        }
        law_sub_chain_reflexive(env, t, fuel);
        assert(!(c[0] is Mv));
        assert(chain_perm(seq![SRedLink::Shared]) == SPerm::Shared);
    }
}

} // verus!
