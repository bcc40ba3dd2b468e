//! Rendering names, places, permissions, types and type errors as text.
use vstd::prelude::*;

use crate::errors::TypeError;
use crate::pop_normalize::DanglingBorrow;
use crate::redperms::{RedChain, RedLink};
use crate::grammar::{
    FieldId, NamedTy, Parameter, Perm, Place, SPlace, SVar, Ty, TypeName, Variable,
};

verus! {

broadcast use vstd::std_specs::vec::axiom_vec_decreases_to_view;

/// The character of a decimal digit.
pub open spec fn digit(d: nat) -> char {
    if d == 0 { '0' } else if d == 1 { '1' } else if d == 2 { '2' } else if d == 3 { '3' }
    else if d == 4 { '4' } else if d == 5 { '5' } else if d == 6 { '6' } else if d == 7 { '7' }
    else if d == 8 { '8' } else { '9' }
}

/// `n` written in decimal.
pub open spec fn decimal(n: nat) -> Seq<char>
    decreases n,
{
    if n < 10 {
        seq![digit(n)]
    } else {
        decimal(n / 10).push(digit(n % 10))
    }
}

pub open spec fn var_text(v: SVar) -> Seq<char> {
    match v {
        SVar::This => "self"@,
        SVar::Id(x) => x,
        SVar::InFlight => "@in_flight"@,
        SVar::Fresh(n) => "@fresh"@ + decimal(n as nat),
        SVar::Return => "@return"@,
    }
}

/// The field projections of a place, each after a dot.
pub open spec fn projections_text(s: Seq<Seq<char>>) -> Seq<char>
    decreases s.len(),
{
    if s.len() == 0 {
        Seq::empty()
    } else {
        projections_text(s.drop_last()) + "."@ + s.last()
    }
}

pub open spec fn place_text(p: SPlace) -> Seq<char> {
    var_text(p.var) + projections_text(p.projections)
}

/// Places separated by commas.
pub open spec fn places_text(s: Seq<Place>) -> Seq<char>
    decreases s.len(),
{
    if s.len() == 0 {
        Seq::empty()
    } else if s.len() == 1 {
        place_text(s[0]@)
    } else {
        places_text(s.drop_last()) + ", "@ + place_text(s.last()@)
    }
}

/// Names separated by commas.
pub open spec fn names_text(s: Seq<Seq<char>>) -> Seq<char>
    decreases s.len(),
{
    if s.len() == 0 {
        Seq::empty()
    } else if s.len() == 1 {
        s[0]
    } else {
        names_text(s.drop_last()) + ", "@ + s.last()
    }
}

/// A generic variable: `!n` for the n-th universal variable, `?n` for an
/// inference variable, `^d_n` for a bound variable.
pub open spec fn variable_text(v: Variable) -> Seq<char> {
    match v {
        Variable::UniversalVar(u) => "!"@ + decimal(u.var_index as nat),
        Variable::ExistentialVar(e) => "?"@ + decimal(e.var_index as nat),
        Variable::BoundVar(b) => "^"@ + decimal(b.debruijn as nat) + "_"@ + decimal(b.var_index as nat),
    }
}

pub open spec fn perm_text(p: &Perm) -> Seq<char>
    decreases p,
{
    match p {
        Perm::Given => "given"@,
        Perm::Shared => "shared"@,
        Perm::Mv(ps) => "moved["@ + places_text(ps@) + "]"@,
        Perm::Rf(ps) => "ref["@ + places_text(ps@) + "]"@,
        Perm::Mt(ps) => "mut["@ + places_text(ps@) + "]"@,
        Perm::Var(v) => variable_text(*v),
        Perm::Apply(l, r) => perm_text(l) + " "@ + perm_text(r),
        Perm::Or(ps) => "or("@ + perms_text(ps@) + ")"@,
    }
}

/// Permissions separated by commas.
pub open spec fn perms_text(s: Seq<Perm>) -> Seq<char>
    decreases s,
{
    if s.len() == 0 {
        Seq::empty()
    } else if s.len() == 1 {
        perm_text(&s[0])
    } else {
        perms_text(s.drop_last()) + ", "@ + perm_text(&s.last())
    }
}

pub open spec fn ty_text(t: &Ty) -> Seq<char>
    decreases t,
{
    match t {
        Ty::NamedTy(n) => match &n.name {
            TypeName::Tuple(_) => "("@ + params_text(n.parameters@) + ")"@,
            TypeName::Int => "Int"@ + args_text(n.parameters@),
            TypeName::Bool => "Bool"@ + args_text(n.parameters@),
            TypeName::Id(c) => c@ + args_text(n.parameters@),
        },
        Ty::Var(v) => variable_text(*v),
        Ty::ApplyPerm(p, inner) => perm_text(p) + " "@ + ty_text(inner),
    }
}

/// Generic arguments in square brackets; nothing when there are none.
pub open spec fn args_text(s: Seq<Parameter>) -> Seq<char>
    decreases s, 1nat,
{
    if s.len() == 0 {
        Seq::empty()
    } else {
        "["@ + params_text(s) + "]"@
    }
}

pub open spec fn param_text(p: &Parameter) -> Seq<char>
    decreases p,
{
    match p {
        Parameter::Ty(t) => ty_text(t),
        Parameter::Perm(q) => perm_text(q),
    }
}

/// Generic arguments separated by commas.
pub open spec fn params_text(s: Seq<Parameter>) -> Seq<char>
    decreases s, 0nat,
{
    if s.len() == 0 {
        Seq::empty()
    } else if s.len() == 1 {
        param_text(&s[0])
    } else {
        params_text(s.drop_last()) + ", "@ + param_text(&s.last())
    }
}

/// The message describing a type error.
pub open spec fn error_text(e: &TypeError) -> Seq<char> {
    match e {
        TypeError::NoSuchClass(c) => "check class name `"@ + c@ + "`"@,
        TypeError::WrongParameterCount => "wrong number of generic parameters"@,
        TypeError::WrongParameterKind(i) => "generic parameter "@ + decimal(*i as nat) + " has the wrong kind"@,
        TypeError::NoSuchVariable(v) => "no variable named `"@ + var_text(v@) + "`"@,
        TypeError::ShadowedVariable(v) => "cannot push local variable `"@ + var_text(v@)
            + "`, it shadows another variable in scope"@,
        TypeError::NoSuchField(f, t, fs) => "field `"@ + f@ + "` not found in type `"@ + ty_text(t)
            + "` (found: ["@ + names_text(fs@.map_values(|x: FieldId| x@)) + "])"@,
        TypeError::TupleFields => "tuple fields not implemented"@,
        TypeError::VariableNotInScope(v) => "variable `"@ + variable_text(*v) + "` is not in scope"@,
        TypeError::PredicateOnNonVariable => "predicates apply to generic variables only"@,
        TypeError::PredicateNotProven => "predicate not proven"@,
        TypeError::UnsupportedBody => "the body uses expressions or statements that are not typed"@,
        TypeError::IllTypedBody => "type check for the body failed"@,
        TypeError::OutOfFuel => "out of fuel"@,
    }
}

/// A link of a reduced chain: `shared`, a borrow or mutable borrow from a
/// place live (`rfl`, `mtl`) or dead (`rfd`, `mtd`) afterwards, a move
/// (`mv`), or a permission variable.
pub open spec fn link_text(l: &RedLink) -> Seq<char> {
    match l {
        RedLink::Shared => "shared"@,
        RedLink::Rfl(p) => "rfl["@ + place_text(p@) + "]"@,
        RedLink::Rfd(p) => "rfd["@ + place_text(p@) + "]"@,
        RedLink::Mtl(p) => "mtl["@ + place_text(p@) + "]"@,
        RedLink::Mtd(p) => "mtd["@ + place_text(p@) + "]"@,
        RedLink::Mv(p) => "mv["@ + place_text(p@) + "]"@,
        RedLink::Var(v) => variable_text(*v),
    }
}

/// The links of a chain separated by spaces; `given` for the empty chain.
pub open spec fn links_text(s: Seq<RedLink>) -> Seq<char>
    decreases s.len(),
{
    if s.len() == 0 {
        Seq::empty()
    } else if s.len() == 1 {
        link_text(&s[0])
    } else {
        links_text(s.drop_last()) + " "@ + link_text(&s.last())
    }
}

pub open spec fn chain_text(c: &RedChain) -> Seq<char> {
    if c.links@.len() == 0 { "given"@ } else { links_text(c.links@) }
}

/// The message describing a dangling borrow.
pub open spec fn dangling_text(d: &DanglingBorrow) -> Seq<char> {
    match d {
        DanglingBorrow::BorrowFromGiven(p) => "dangling borrow: return type borrows from `"@ + place_text(p@)
            + "` which has `given` permission, so the borrow would outlive the owned value"@,
        DanglingBorrow::ThroughPopped(c, p) => "dangling borrow: chain `"@ + chain_text(c) + "` borrows through `"@
            + place_text(p@) + "` which is being popped (type not shareable or tail not mut-based)"@,
        DanglingBorrow::LiveLink(l, v) => "dangling borrow: live link `"@ + link_text(l)
            + "` references popped variable `"@ + var_text(v@) + "`"@,
        DanglingBorrow::MentionsPopped(c) => "dangling borrow: chain `"@ + chain_text(c) + "` references popped variables"@,
    }
}

/// Appends the characters of `s`.
pub fn push_str(out: &mut Vec<char>, s: &str)
    ensures
        final(out)@ == old(out)@ + s@,
{
    let n = s.unicode_len();
    let ghost start = out@;
    let mut i: usize = 0;
    while i < n
        invariant
            n == s@.len(),
            i <= n,
            out@ == start + s@.subrange(0, i as int),
        decreases n - i,
    {
        out.push(s.get_char(i));
        i = i + 1;
        assert(out@ =~= start + s@.subrange(0, i as int));
    }
    assert(s@.subrange(0, n as int) =~= s@);
}

fn push_chars(out: &mut Vec<char>, cs: &Vec<char>)
    ensures
        final(out)@ == old(out)@ + cs@,
{
    let ghost start = out@;
    let mut i: usize = 0;
    while i < cs.len()
        invariant
            i <= cs@.len(),
            out@ == start + cs@.subrange(0, i as int),
        decreases cs.len() - i,
    {
        out.push(cs[i]);
        i = i + 1;
        assert(out@ =~= start + cs@.subrange(0, i as int));
    }
    assert(cs@.subrange(0, cs@.len() as int) =~= cs@);
}

fn digit_char(d: usize) -> (r: char)
    requires
        d < 10,
    ensures
        r == digit(d as nat),
{
    if d == 0 { '0' } else if d == 1 { '1' } else if d == 2 { '2' } else if d == 3 { '3' }
    else if d == 4 { '4' } else if d == 5 { '5' } else if d == 6 { '6' } else if d == 7 { '7' }
    else if d == 8 { '8' } else { '9' }
}

/// Appends `n` in decimal.
pub fn push_decimal(out: &mut Vec<char>, n: usize)
    ensures
        final(out)@ == old(out)@ + decimal(n as nat),
    decreases n,
{
    if n < 10 {
        out.push(digit_char(n));
        assert(out@ =~= old(out)@ + decimal(n as nat));
    } else {
        push_decimal(out, n / 10);
        out.push(digit_char(n % 10));
        assert(out@ =~= old(out)@ + decimal(n as nat));
    }
}

fn push_var(out: &mut Vec<char>, v: &crate::grammar::Var)
    ensures
        final(out)@ == old(out)@ + var_text(v@),
{
    match v {
        crate::grammar::Var::This => push_str(out, "self"),
        crate::grammar::Var::Id(x) => push_chars(out, &x.chars),
        crate::grammar::Var::InFlight => push_str(out, "@in_flight"),
        crate::grammar::Var::Fresh(n) => {
            push_str(out, "@fresh");
            push_decimal(out, *n);
            assert(out@ =~= old(out)@ + var_text(v@));
        },
        crate::grammar::Var::Return => push_str(out, "@return"),
    }
}

fn push_place(out: &mut Vec<char>, p: &Place)
    ensures
        final(out)@ == old(out)@ + place_text(p@),
{
    push_var(out, &p.var);
    let ghost mid = out@;
    let ghost ps = p@.projections;
    let mut i: usize = 0;
    while i < p.projections.len()
        invariant
            i <= p.projections@.len(),
            ps.len() == p.projections@.len(),
            forall|j: int| 0 <= j < ps.len() ==> #[trigger] ps[j] == p.projections@[j]@,
            out@ == mid + projections_text(ps.subrange(0, i as int)),
        decreases p.projections.len() - i,
    {
        push_str(out, ".");
        match &p.projections[i] {
            crate::grammar::Projection::Field(f) => push_chars(out, &f.chars),
        }
        proof {
            assert(ps.subrange(0, i + 1).drop_last() =~= ps.subrange(0, i as int));
        }
        i = i + 1;
    }
    assert(ps.subrange(0, ps.len() as int) =~= ps);
    assert(out@ =~= old(out)@ + place_text(p@));
}

fn push_places(out: &mut Vec<char>, ps: &Vec<Place>)
    ensures
        final(out)@ == old(out)@ + places_text(ps@),
{
    let ghost start = out@;
    let mut i: usize = 0;
    while i < ps.len()
        invariant
            i <= ps@.len(),
            out@ == start + places_text(ps@.subrange(0, i as int)),
        decreases ps.len() - i,
    {
        if i > 0 {
            push_str(out, ", ");
        }
        push_place(out, &ps[i]);
        proof {
            let s = ps@.subrange(0, i + 1);
            assert(s.drop_last() =~= ps@.subrange(0, i as int));
            if i == 0 {
                assert(ps@.subrange(0, 0).len() == 0);
            }
        }
        i = i + 1;
        assert(out@ =~= start + places_text(ps@.subrange(0, i as int)));
    }
    assert(ps@.subrange(0, ps@.len() as int) =~= ps@);
}

fn push_names(out: &mut Vec<char>, fs: &Vec<FieldId>)
    ensures
        final(out)@ == old(out)@ + names_text(fs@.map_values(|x: FieldId| x@)),
{
    let ghost start = out@;
    let ghost names = fs@.map_values(|x: FieldId| x@);
    let mut i: usize = 0;
    while i < fs.len()
        invariant
            i <= fs@.len(),
            names == fs@.map_values(|x: FieldId| x@),
            out@ == start + names_text(names.subrange(0, i as int)),
        decreases fs.len() - i,
    {
        if i > 0 {
            push_str(out, ", ");
        }
        push_chars(out, &fs[i].chars);
        proof {
            let s = names.subrange(0, i + 1);
            assert(s.drop_last() =~= names.subrange(0, i as int));
        }
        i = i + 1;
        assert(out@ =~= start + names_text(names.subrange(0, i as int)));
    }
    assert(names.subrange(0, names.len() as int) =~= names);
}

fn push_variable(out: &mut Vec<char>, v: Variable)
    ensures
        final(out)@ == old(out)@ + variable_text(v),
{
    match v {
        Variable::UniversalVar(u) => {
            push_str(out, "!");
            push_decimal(out, u.var_index);
        },
        Variable::ExistentialVar(e) => {
            push_str(out, "?");
            push_decimal(out, e.var_index);
        },
        Variable::BoundVar(b) => {
            push_str(out, "^");
            push_decimal(out, b.debruijn);
            push_str(out, "_");
            push_decimal(out, b.var_index);
        },
    }
    assert(out@ =~= old(out)@ + variable_text(v));
}

fn push_perm(out: &mut Vec<char>, p: &Perm)
    ensures
        final(out)@ == old(out)@ + perm_text(p),
    decreases p, 1nat,
{
    match p {
        Perm::Given => push_str(out, "given"),
        Perm::Shared => push_str(out, "shared"),
        Perm::Mv(ps) => {
            push_str(out, "moved[");
            push_places(out, ps);
            push_str(out, "]");
        },
        Perm::Rf(ps) => {
            push_str(out, "ref[");
            push_places(out, ps);
            push_str(out, "]");
        },
        Perm::Mt(ps) => {
            push_str(out, "mut[");
            push_places(out, ps);
            push_str(out, "]");
        },
        Perm::Var(v) => push_variable(out, *v),
        Perm::Apply(l, r) => {
            push_perm(out, l);
            push_str(out, " ");
            push_perm(out, r);
        },
        Perm::Or(ps) => {
            push_str(out, "or(");
            push_perms(out, ps);
            push_str(out, ")");
        },
    }
    assert(out@ =~= old(out)@ + perm_text(p));
}

fn push_perms(out: &mut Vec<char>, ps: &Vec<Perm>)
    ensures
        final(out)@ == old(out)@ + perms_text(ps@),
    decreases ps, 0nat,
{
    let ghost start = out@;
    let mut i: usize = 0;
    while i < ps.len()
        invariant
            i <= ps@.len(),
            out@ == start + perms_text(ps@.subrange(0, i as int)),
        decreases ps.len() - i,
    {
        if i > 0 {
            push_str(out, ", ");
        }
        proof {
            assert(decreases_to!(ps => ps@[i as int]));
        }
        push_perm(out, &ps[i]);
        proof {
            let s = ps@.subrange(0, i + 1);
            assert(s.drop_last() =~= ps@.subrange(0, i as int));
        }
        i = i + 1;
        assert(out@ =~= start + perms_text(ps@.subrange(0, i as int)));
    }
    assert(ps@.subrange(0, ps@.len() as int) =~= ps@);
}

fn push_ty(out: &mut Vec<char>, t: &Ty)
    ensures
        final(out)@ == old(out)@ + ty_text(t),
    decreases t, 2nat,
{
    match t {
        Ty::NamedTy(n) => {
            proof {
                assert(decreases_to!(t => n.parameters));
            }
            match &n.name {
                TypeName::Tuple(_) => {
                    push_str(out, "(");
                    push_params(out, &n.parameters);
                    push_str(out, ")");
                },
                TypeName::Int => {
                    push_str(out, "Int");
                    push_args(out, &n.parameters);
                },
                TypeName::Bool => {
                    push_str(out, "Bool");
                    push_args(out, &n.parameters);
                },
                TypeName::Id(c) => {
                    push_chars(out, &c.chars);
                    push_args(out, &n.parameters);
                },
            }
        },
        Ty::Var(v) => push_variable(out, *v),
        Ty::ApplyPerm(p, inner) => {
            push_perm(out, p);
            push_str(out, " ");
            push_ty(out, inner);
        },
    }
    assert(out@ =~= old(out)@ + ty_text(t));
}

fn push_args(out: &mut Vec<char>, ps: &Vec<Parameter>)
    ensures
        final(out)@ == old(out)@ + args_text(ps@),
    decreases ps, 1nat,
{
    if ps.len() > 0 {
        push_str(out, "[");
        push_params(out, ps);
        push_str(out, "]");
    }
    assert(out@ =~= old(out)@ + args_text(ps@));
}

fn push_params(out: &mut Vec<char>, ps: &Vec<Parameter>)
    ensures
        final(out)@ == old(out)@ + params_text(ps@),
    decreases ps, 0nat,
{
    let ghost start = out@;
    let mut i: usize = 0;
    while i < ps.len()
        invariant
            i <= ps@.len(),
            out@ == start + params_text(ps@.subrange(0, i as int)),
        decreases ps.len() - i,
    {
        if i > 0 {
            push_str(out, ", ");
        }
        proof {
            assert(decreases_to!(ps => ps@[i as int]));
        }
        match &ps[i] {
            Parameter::Ty(t) => {
                push_ty(out, t);
                assert(param_text(&ps@[i as int]) == ty_text(t));
            },
            Parameter::Perm(q) => {
                push_perm(out, q);
                assert(param_text(&ps@[i as int]) == perm_text(q));
            },
        }
        proof {
            let s = ps@.subrange(0, i + 1);
            assert(s.drop_last() =~= ps@.subrange(0, i as int));
        }
        i = i + 1;
        assert(out@ =~= start + params_text(ps@.subrange(0, i as int)));
    }
    assert(ps@.subrange(0, ps@.len() as int) =~= ps@);
}

fn push_link(out: &mut Vec<char>, l: &RedLink)
    ensures
        final(out)@ == old(out)@ + link_text(l),
{
    match l {
        RedLink::Shared => push_str(out, "shared"),
        RedLink::Rfl(p) => {
            push_str(out, "rfl[");
            push_place(out, p);
            push_str(out, "]");
        },
        RedLink::Rfd(p) => {
            push_str(out, "rfd[");
            push_place(out, p);
            push_str(out, "]");
        },
        RedLink::Mtl(p) => {
            push_str(out, "mtl[");
            push_place(out, p);
            push_str(out, "]");
        },
        RedLink::Mtd(p) => {
            push_str(out, "mtd[");
            push_place(out, p);
            push_str(out, "]");
        },
        RedLink::Mv(p) => {
            push_str(out, "mv[");
            push_place(out, p);
            push_str(out, "]");
        },
        RedLink::Var(v) => push_variable(out, *v),
    }
    assert(out@ =~= old(out)@ + link_text(l));
}

fn push_chain(out: &mut Vec<char>, c: &RedChain)
    ensures
        final(out)@ == old(out)@ + chain_text(c),
{
    if c.links.len() == 0 {
        push_str(out, "given");
        return;
    }
    let ghost start = out@;
    let mut i: usize = 0;
    while i < c.links.len()
        invariant
            i <= c.links@.len(),
            c.links@.len() > 0,
            out@ == start + links_text(c.links@.subrange(0, i as int)),
        decreases c.links.len() - i,
    {
        if i > 0 {
            push_str(out, " ");
        }
        push_link(out, &c.links[i]);
        proof {
            let s = c.links@.subrange(0, i + 1);
            assert(s.drop_last() =~= c.links@.subrange(0, i as int));
        }
        i = i + 1;
        assert(out@ =~= start + links_text(c.links@.subrange(0, i as int)));
    }
    assert(c.links@.subrange(0, c.links@.len() as int) =~= c.links@);
}

impl DanglingBorrow {
    /// The message describing this dangling borrow (see [`dangling_text`]).
    pub fn message(&self) -> (r: String)
        ensures
            r@ == dangling_text(self),
    {
        let mut out: Vec<char> = Vec::new();
        match self {
            DanglingBorrow::BorrowFromGiven(p) => {
                push_str(&mut out, "dangling borrow: return type borrows from `");
                push_place(&mut out, p);
                push_str(&mut out, "` which has `given` permission, so the borrow would outlive the owned value");
            },
            DanglingBorrow::ThroughPopped(c, p) => {
                push_str(&mut out, "dangling borrow: chain `");
                push_chain(&mut out, c);
                push_str(&mut out, "` borrows through `");
                push_place(&mut out, p);
                push_str(&mut out, "` which is being popped (type not shareable or tail not mut-based)");
            },
            DanglingBorrow::LiveLink(l, v) => {
                push_str(&mut out, "dangling borrow: live link `");
                push_link(&mut out, l);
                push_str(&mut out, "` references popped variable `");
                push_var(&mut out, v);
                push_str(&mut out, "`");
            },
            DanglingBorrow::MentionsPopped(c) => {
                push_str(&mut out, "dangling borrow: chain `");
                push_chain(&mut out, c);
                push_str(&mut out, "` references popped variables");
            },
        }
        assert(out@ =~= dangling_text(self));
        chars_to_string(&out)
    }
}

/// Collects characters into a `String` with std's `Iterator::collect`
/// (`String`'s `FromIterator<&char>`), which the std documentation describes
/// as building the string from the characters in order. Trusted: the
/// contract says the string's characters are exactly `cs`.
#[verifier::external_body]
fn chars_to_string(cs: &Vec<char>) -> (r: String)
    ensures
        r@ == cs@,
{
    cs.iter().collect()
}

/// The type written as text (see [`ty_text`]).
pub fn ty_to_string(t: &Ty) -> (r: String)
    ensures
        r@ == ty_text(t),
{
    let mut out: Vec<char> = Vec::new();
    push_ty(&mut out, t);
    assert(out@ =~= ty_text(t));
    chars_to_string(&out)
}

impl TypeError {
    /// The message describing this error (see [`error_text`]).
    pub fn message(&self) -> (r: String)
        ensures
            r@ == error_text(self),
    {
        let mut out: Vec<char> = Vec::new();
        match self {
            TypeError::NoSuchClass(c) => {
                push_str(&mut out, "check class name `");
                push_chars(&mut out, &c.chars);
                push_str(&mut out, "`");
            },
            TypeError::WrongParameterCount => push_str(&mut out, "wrong number of generic parameters"),
            TypeError::WrongParameterKind(i) => {
                push_str(&mut out, "generic parameter ");
                push_decimal(&mut out, *i);
                push_str(&mut out, " has the wrong kind");
            },
            TypeError::NoSuchVariable(v) => {
                push_str(&mut out, "no variable named `");
                push_var(&mut out, v);
                push_str(&mut out, "`");
            },
            TypeError::ShadowedVariable(v) => {
                push_str(&mut out, "cannot push local variable `");
                push_var(&mut out, v);
                push_str(&mut out, "`, it shadows another variable in scope");
            },
            TypeError::NoSuchField(f, t, fs) => {
                push_str(&mut out, "field `");
                push_chars(&mut out, &f.chars);
                push_str(&mut out, "` not found in type `");
                push_ty(&mut out, t);
                push_str(&mut out, "` (found: [");
                push_names(&mut out, fs);
                push_str(&mut out, "])");
            },
            TypeError::TupleFields => push_str(&mut out, "tuple fields not implemented"),
            TypeError::VariableNotInScope(v) => {
                push_str(&mut out, "variable `");
                push_variable(&mut out, *v);
                push_str(&mut out, "` is not in scope");
            },
            TypeError::PredicateOnNonVariable => push_str(&mut out, "predicates apply to generic variables only"),
            TypeError::PredicateNotProven => push_str(&mut out, "predicate not proven"),
            TypeError::UnsupportedBody => push_str(&mut out, "the body uses expressions or statements that are not typed"),
            TypeError::IllTypedBody => push_str(&mut out, "type check for the body failed"),
            TypeError::OutOfFuel => push_str(&mut out, "out of fuel"),
        }
        assert(out@ =~= error_text(self));
        chars_to_string(&out)
    }
}

} // verus!
