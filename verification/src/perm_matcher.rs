//! Matching permissions up to associativity: a permission is flattened into
//! the sequence of its leaves, so that `(P Q) R` and `P (Q R)` match alike.
use vstd::prelude::*;

use crate::grammar::{
    copy_places, lemma_place_set_contains, place_set, Perm, Place, SPerm, SPlace, Variable,
};

verus! {

broadcast use vstd::set::group_set_axioms, vstd::seq_lib::seq_to_set_is_finite;

/// How a leaf permission reaches its places.
#[derive(PartialEq, Eq, Structural, Clone, Copy)]
pub enum Access {
    Mt,
    Mv,
    Rf,
}

/// A permission that is not an application.
pub enum Leaf {
    Place(Access, Place),
    Places(Access, Vec<Place>),
    My,
    Our,
    Var(Variable),
}

pub enum SLeaf {
    Place(Access, SPlace),
    Places(Access, Set<SPlace>),
    My,
    Our,
    Var(Variable),
}

impl View for Leaf {
    type V = SLeaf;

    open spec fn view(&self) -> SLeaf {
        match self {
            Leaf::Place(k, p) => SLeaf::Place(*k, p@),
            Leaf::Places(k, ps) => SLeaf::Places(*k, place_set(ps@)),
            Leaf::My => SLeaf::My,
            Leaf::Our => SLeaf::Our,
            Leaf::Var(v) => SLeaf::Var(*v),
        }
    }
}

/// A matched permission: its first leaf `.0` and what follows `.1`.
pub struct Head<H, T>(pub H, pub T);

/// What follows the leaves matched so far.
pub struct Tail<L>(pub L);

/// The leaves of a flattened permission, possibly none.
pub struct Leaves(Vec<Leaf>);

impl View for Leaves {
    type V = Seq<SLeaf>;

    closed spec fn view(&self) -> Seq<SLeaf> {
        self.0@.map_values(|l: Leaf| l@)
    }
}

pub open spec fn leaves_view(v: Seq<Leaf>) -> Seq<SLeaf> {
    v.map_values(|l: Leaf| l@)
}

/// The permission of kind `k` over the places `s`.
pub open spec fn access_perm(k: Access, s: Set<SPlace>) -> SPerm {
    match k {
        Access::Rf => SPerm::Rf(s),
        Access::Mv => SPerm::Mv(s),
        Access::Mt => SPerm::Mt(s),
    }
}

/// The leaf for a permission of kind `k` over `s`: a single place when
/// there is exactly one.
pub open spec fn leaf_of_places(k: Access, s: Set<SPlace>) -> SLeaf {
    if s.len() == 1 {
        SLeaf::Place(k, s.choose())
    } else {
        SLeaf::Places(k, s)
    }
}

/// The leaf a permission is, if it is one.
pub open spec fn leaf_of_perm(p: SPerm) -> Option<SLeaf> {
    match p {
        SPerm::Given => Some(SLeaf::My),
        SPerm::Shared => Some(SLeaf::Our),
        SPerm::Mv(s) => Some(leaf_of_places(Access::Mv, s)),
        SPerm::Rf(s) => Some(leaf_of_places(Access::Rf, s)),
        SPerm::Mt(s) => Some(leaf_of_places(Access::Mt, s)),
        SPerm::Var(v) => Some(SLeaf::Var(v)),
        SPerm::Apply(_, _) => None,
        SPerm::Or(_) => None,
    }
}

/// The permission a leaf stands for.
pub open spec fn leaf_perm(l: SLeaf) -> SPerm {
    match l {
        SLeaf::Place(k, p) => access_perm(k, set![p]),
        SLeaf::Places(k, s) => access_perm(k, s),
        SLeaf::My => SPerm::Given,
        SLeaf::Our => SPerm::Shared,
        SLeaf::Var(v) => SPerm::Var(v),
    }
}

/// True if `p` holds no choice among permissions.
pub open spec fn no_or(p: SPerm) -> bool
    decreases p,
{
    match p {
        SPerm::Apply(l, r) => no_or(*l) && no_or(*r),
        SPerm::Or(_) => false,
        _ => true,
    }
}

/// The leaves of `p`, left to right.
pub open spec fn flat(p: SPerm) -> Seq<SLeaf>
    decreases p,
{
    match p {
        SPerm::Apply(l, r) => flat(*l) + flat(*r),
        _ => seq![leaf_of_perm(p)->Some_0],
    }
}

/// The leaves `s` applied right to left: `s[0] (s[1] (... s[n-1]))`.
pub open spec fn nest(s: Seq<SLeaf>) -> SPerm
    decreases s.len(),
{
    if s.len() <= 1 {
        leaf_perm(s[0])
    } else {
        SPerm::Apply(Box::new(leaf_perm(s[0])), Box::new(nest(s.subrange(1, s.len() as int))))
    }
}

/// The permission of a sequence of leaves: `given` when there are none.
pub open spec fn leaves_perm(s: Seq<SLeaf>) -> SPerm {
    if s.len() == 0 {
        SPerm::Given
    } else {
        nest(s)
    }
}

/// A leaf is canonical unless it lists a set of exactly one place (which
/// reads back as that place alone).
pub open spec fn canonical_leaf(l: SLeaf) -> bool {
    match l {
        SLeaf::Places(_, s) => s.len() != 1,
        _ => true,
    }
}

fn copy_leaf(l: &Leaf) -> (r: Leaf)
    ensures
        r@ == l@,
{
    match l {
        Leaf::Place(k, p) => Leaf::Place(*k, p.copy()),
        Leaf::Places(k, ps) => Leaf::Places(*k, copy_places(ps)),
        Leaf::My => Leaf::My,
        Leaf::Our => Leaf::Our,
        Leaf::Var(v) => Leaf::Var(*v),
    }
}

/// True if the places make a set of exactly one place.
fn is_single_place(places: &Vec<Place>) -> (r: bool)
    ensures
        r == (place_set(places@).len() == 1),
        r ==> place_set(places@) == set![places@[0]@],
{
    let ghost s = place_set(places@);
    if places.len() == 0 {
        proof {
            assert(s =~= Set::<SPlace>::empty()) by {
                assert forall|x: SPlace| !s.contains(x) by {
                    lemma_place_set_contains(places@, x);
                }
            }
        }
        return false;
    }
    let mut i: usize = 1;
    while i < places.len()
        invariant
            s == place_set(places@),
            1 <= i <= places@.len(),
            forall|j: int| 0 <= j < i ==> #[trigger] places@[j]@ == places@[0]@,
        decreases places.len() - i,
    {
        if !places[i].same(&places[0]) {
            proof {
                lemma_place_set_contains(places@, places@[0]@);
                lemma_place_set_contains(places@, places@[i as int]@);
                assert(s.finite());
                assert(s.remove(places@[0]@).contains(places@[i as int]@));
                assert(s.remove(places@[0]@).len() != 0);
                assert(s.len() == s.remove(places@[0]@).len() + 1);
            }
            return false;
        }
        i = i + 1;
    }
    proof {
        assert forall|x: SPlace| s.contains(x) <==> x == places@[0]@ by {
            lemma_place_set_contains(places@, x);
            if s.contains(x) {
                let j = choose|j: int| 0 <= j < places@.len() && #[trigger] places@[j]@ == x;
                assert(places@[j]@ == places@[0]@);
            }
        }
        assert(s =~= set![places@[0]@]);
        assert(set![places@[0]@].len() == 1);
    }
    true
}

impl Leaf {
    /// The leaf for the single place `place`.
    pub fn place(acc: Access, place: &Place) -> (r: Leaf)
        ensures
            r@ == SLeaf::Place(acc, place@),
    {
        Leaf::Place(acc, place.copy())
    }

    /// The leaf for a permission of kind `kind` over `set`: a single place
    /// when the set has exactly one.
    pub fn place_or_places(kind: Access, set: &Vec<Place>) -> (r: Leaf)
        ensures
            r@ == leaf_of_places(kind, place_set(set@)),
    {
        if is_single_place(set) {
            proof {
                let s = place_set(set@);
                assert(s.contains(s.choose()));
            }
            Leaf::Place(kind, set[0].copy())
        } else {
            Leaf::Places(kind, copy_places(set))
        }
    }

    /// The permission of kind `kind` over `set`.
    pub fn access_to_perm(kind: Access, set: Vec<Place>) -> (r: Perm)
        ensures
            r@ == access_perm(kind, place_set(set@)),
    {
        match kind {
            Access::Rf => Perm::Rf(set),
            Access::Mv => Perm::Mv(set),
            Access::Mt => Perm::Mt(set),
        }
    }

    /// The leaf `perm` is, or `None` for an application or a choice.
    pub fn from_perm(perm: &Perm) -> (r: Option<Leaf>)
        ensures
            r matches Some(l) ==> leaf_of_perm(perm@) == Some(l@),
            r is None ==> leaf_of_perm(perm@) is None,
    {
        match perm {
            Perm::Given => Some(Leaf::My),
            Perm::Shared => Some(Leaf::Our),
            Perm::Mv(set) => Some(Leaf::place_or_places(Access::Mv, set)),
            Perm::Rf(set) => Some(Leaf::place_or_places(Access::Rf, set)),
            Perm::Mt(set) => Some(Leaf::place_or_places(Access::Mt, set)),
            Perm::Var(v) => Some(Leaf::Var(*v)),
            Perm::Apply(..) => None,
            Perm::Or(..) => None,
        }
    }

    /// The permission this leaf stands for.
    pub fn to_perm(&self) -> (r: Perm)
        ensures
            r@ == leaf_perm(self@),
    {
        match self {
            Leaf::Place(kind, place) => {
                let v = vec![place.copy()];
                proof {
                    lemma_place_set_contains(v@, place@);
                    assert forall|x: SPlace| place_set(v@).contains(x) <==> x == place@ by {
                        lemma_place_set_contains(v@, x);
                    }
                    assert(place_set(v@) =~= set![place@]);
                }
                Leaf::access_to_perm(*kind, v)
            },
            Leaf::Places(kind, set) => Leaf::access_to_perm(*kind, copy_places(set)),
            Leaf::My => Perm::Given,
            Leaf::Our => Perm::Shared,
            Leaf::Var(v) => Perm::Var(*v),
        }
    }
}

/// Appends the leaves of `perm` to `output`, left to right.
pub fn flatten_perm(perm: &Perm, output: &mut Vec<Leaf>)
    requires
        no_or(perm@),
    ensures
        leaves_view(final(output)@) == leaves_view(old(output)@) + flat(perm@),
    decreases perm,
{
    match perm {
        Perm::Apply(l, r) => {
            let ghost start = leaves_view(output@);
            flatten_perm(l, output);
            let ghost mid = leaves_view(output@);
            flatten_perm(r, output);
            assert(leaves_view(output@) =~= start + (flat(l@) + flat(r@)));
        },
        _ => {
            let leaf = Leaf::from_perm(perm);
            match leaf {
                Some(leaf) => {
                    let ghost before = leaves_view(output@);
                    output.push(leaf);
                    assert(leaves_view(output@) =~= before + flat(perm@));
                },
                None => {
                    assert(false);
                },
            }
        },
    }
}

impl Leaves {
    /// The leaves of `perm`, left to right.
    pub fn from_perm(perm: &Perm) -> (r: Leaves)
        requires
            no_or(perm@),
        ensures
            r@ == flat(perm@),
    {
        let mut v: Vec<Leaf> = Vec::new();
        flatten_perm(perm, &mut v);
        assert(leaves_view(Seq::<Leaf>::empty()) =~= Seq::<SLeaf>::empty());
        let r = Leaves(v);
        assert(r@ =~= flat(perm@));
        r
    }

    /// The leaves `v`.
    pub fn from_vec(v: Vec<Leaf>) -> (r: Leaves)
        ensures
            r@ == leaves_view(v@),
    {
        Leaves(v)
    }

    /// The leaves applied right to left, `Leaf0 (Leaf1 (Leaf2 ...))`, or
    /// `None` when there are none.
    pub fn into_tail(self) -> (r: Option<Perm>)
        ensures
            self@.len() == 0 ==> r is None,
            self@.len() > 0 ==> (r matches Some(p) && p@ == nest(self@)),
    {
        let ghost s = self@;
        let leaves = self.0;
        let n = leaves.len();
        if n == 0 {
            return None;
        }
        assert(s[n - 1] == leaves@[n - 1]@);
        let mut tail: Perm = leaves[n - 1].to_perm();
        let mut i: usize = n - 1;
        proof {
            let last = s.subrange(i as int, n as int);
            assert(last.len() == 1 && last[0] == s[n - 1]);
        }
        while i > 0
            invariant
                s == leaves_view(leaves@),
                n == leaves@.len(),
                i < n,
                tail@ == nest(s.subrange(i as int, n as int)),
            decreases i,
        {
            i = i - 1;
            assert(s[i as int] == leaves@[i as int]@);
            let ghost sub = s.subrange(i as int, n as int);
            assert(sub.subrange(1, sub.len() as int) =~= s.subrange(i + 1, n as int));
            tail = Perm::Apply(Box::new(leaves[i].to_perm()), Box::new(tail));
        }
        assert(s.subrange(0, n as int) =~= s);
        Some(tail)
    }

    /// The permission of the leaves: `given` when there are none.
    pub fn to_perm(self) -> (r: Perm)
        ensures
            r@ == leaves_perm(self@),
    {
        match self.into_tail() {
            Some(tail) => tail,
            None => Perm::Given,
        }
    }
}

/// Splits `perm` into its first leaf and the leaves that follow it; `None`
/// when it has no leaf.
pub fn head_of_perm(perm: &Perm) -> (r: Option<Head<Leaf, Tail<Leaves>>>)
    requires
        no_or(perm@),
    ensures
        r matches Some(Head(h, Tail(t))) && h@ == flat(perm@)[0]
            && t@ == flat(perm@).subrange(1, flat(perm@).len() as int),
{
    let mut heads: Vec<Leaf> = Vec::new();
    flatten_perm(perm, &mut heads);
    proof {
        assert(leaves_view(Seq::<Leaf>::empty()) =~= Seq::<SLeaf>::empty());
        lemma_flat_nonempty(perm@);
    }
    let ghost hv = leaves_view(heads@);
    assert(hv =~= flat(perm@));
    let head = heads.remove(0);
    assert(leaves_view(heads@) =~= hv.subrange(1, hv.len() as int));
    Some(Head(head, Tail(Leaves(heads))))
}

/// The permission `head` applied to the leaves of `tail`, or `head` alone
/// when `tail` has none.
pub fn head_to_perm(head: &Leaf, tail: Leaves) -> (r: Perm)
    ensures
        tail@.len() == 0 ==> r@ == leaf_perm(head@),
        tail@.len() > 0 ==> r@ == SPerm::Apply(Box::new(leaf_perm(head@)), Box::new(nest(tail@))),
{
    let head = head.to_perm();
    match tail.into_tail() {
        Some(t) => Perm::Apply(Box::new(head), Box::new(t)),
        None => head,
    }
}

/// Every permission has at least one leaf.
pub proof fn lemma_flat_nonempty(p: SPerm)
    ensures
        flat(p).len() > 0,
    decreases p,
{
    if let SPerm::Apply(l, r) = p {
        lemma_flat_nonempty(*l);
        lemma_flat_nonempty(*r);
    }
}

/// Reading a canonical leaf back from its permission gives the leaf.
pub proof fn law_leaf_round_trip(l: SLeaf)
    requires
        canonical_leaf(l),
    ensures
        leaf_of_perm(leaf_perm(l)) == Some(l),
{
    if let SLeaf::Place(k, p) = l {
        let s = set![p];
        assert(s.len() == 1);
        assert(s.contains(s.choose()));
    }
}

/// Flattening the right-nested application of non-empty canonical leaves
/// gives back the leaves.
pub proof fn law_flat_nest(s: Seq<SLeaf>)
    requires
        s.len() > 0,
        forall|i: int| 0 <= i < s.len() ==> canonical_leaf(#[trigger] s[i]),
    ensures
        flat(nest(s)) == s,
    decreases s.len(),
{
    law_leaf_round_trip(s[0]);
    let lp = leaf_perm(s[0]);
    assert(flat(lp) == seq![s[0]]) by {
        match lp {
            SPerm::Apply(_, _) => {},
            _ => {},
        }
    }
    if s.len() > 1 {
        let rest = s.subrange(1, s.len() as int);
        assert forall|i: int| 0 <= i < rest.len() implies canonical_leaf(#[trigger] rest[i]) by {
            assert(rest[i] == s[i + 1]);
        }
        law_flat_nest(rest);
        assert(seq![s[0]] + rest =~= s);
    }
}

} // verus!
