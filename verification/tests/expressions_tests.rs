use std::sync::Arc;

use dada_model::env::Env;
use dada_model::errors::TypeError;
use dada_model::expressions::{can_type_expr_as, type_block, type_expr, type_expr_as, type_exprs, type_statements, Typing, Typings};
use dada_model::grammar::{
    Access, Ascription, Atomic, BinaryOp, Binder, Block, ClassDecl, ClassDeclBoundData, ClassPredicate, DropBody, Expr,
    FieldDecl, Ident, MethodBody, MethodDecl, MethodDeclBoundData, NamedTy, Parameter, Perm, Place, PlaceExpr,
    Program, Statement, ThisDecl, Ty, TypeName, Var,
};
use dada_model::liveness::LivePlaces;
use dada_model::program::check_program;
use dada_model::subtypes::{split_perm_ty, sub};
use dada_model::text::ty_to_string;

fn ident(s: &str) -> Ident {
    Ident::from_str(s)
}

fn named(name: TypeName) -> Ty {
    Ty::NamedTy(NamedTy { name, parameters: vec![] })
}

fn int_ty() -> Ty {
    named(TypeName::Int)
}

fn bool_ty() -> Ty {
    named(TypeName::Bool)
}

fn unit() -> Ty {
    named(TypeName::Tuple(0))
}

fn point() -> Ty {
    named(TypeName::Id(ident("Point")))
}

fn class(name: &str, class_predicate: ClassPredicate, methods: Vec<MethodDecl>, drop_body: Vec<Statement>) -> ClassDecl {
    ClassDecl {
        class_predicate,
        name: ident(name),
        binder: Binder {
            kinds: vec![],
            term: ClassDeclBoundData {
                predicates: vec![],
                fields: vec![FieldDecl { atomic: Atomic::No, name: ident("x"), ty: int_ty() }],
                methods,
                drop_body: DropBody { block: Block { statements: drop_body } },
            },
        },
    }
}

fn method(name: &str, output: Ty, body: Vec<Statement>) -> MethodDecl {
    MethodDecl {
        name: ident(name),
        binder: Binder {
            kinds: vec![],
            term: MethodDeclBoundData {
                this: ThisDecl { perm: Perm::Given },
                inputs: vec![],
                output,
                predicates: vec![],
                body: MethodBody::Block(Block { statements: body }),
            },
        },
    }
}

fn env() -> Env {
    Env::new(Arc::new(Program { classes: vec![class("Point", ClassPredicate::Given, vec![], vec![])] }))
}

fn lit(n: usize) -> Expr {
    Expr::Integer(n)
}

fn binop(l: Expr, op: BinaryOp, r: Expr) -> Expr {
    Expr::BinaryOp(Box::new(l), op, Box::new(r))
}

fn block(es: Vec<Expr>) -> Expr {
    Expr::Block(Block { statements: es.into_iter().map(Statement::Expr).collect() })
}

fn is_named(t: &Ty, name: TypeName) -> bool {
    match t {
        Ty::NamedTy(n) => n.parameters.is_empty() && match (&n.name, &name) {
            (TypeName::Int, TypeName::Int) | (TypeName::Bool, TypeName::Bool) => true,
            (TypeName::Tuple(a), TypeName::Tuple(b)) => a == b,
            (TypeName::Id(a), TypeName::Id(b)) => a.same(b),
            _ => false,
        },
        _ => false,
    }
}

fn typed_as(r: Typing, name: TypeName) -> bool {
    match r {
        Typing::Typed(_, t) => is_named(&t, name),
        _ => false,
    }
}

#[test]
fn int_sub_int() {
    let env = env();
    let live = LivePlaces::new();
    assert!(sub(&env, &live, &Parameter::Ty(int_ty()), &Parameter::Ty(int_ty()), 4));
    assert!(!sub(&env, &live, &Parameter::Ty(int_ty()), &Parameter::Ty(bool_ty()), 4));
    // Subtyping follows the shape of the types; fuel only bounds the proofs
    // about permissions and predicates.
    assert!(sub(&env, &live, &Parameter::Ty(int_ty()), &Parameter::Ty(int_ty()), 0));
    let pair = || Ty::NamedTy(NamedTy { name: TypeName::Tuple(2), parameters: vec![Parameter::Ty(int_ty()), Parameter::Ty(int_ty())] });
    assert!(sub(&env, &live, &Parameter::Ty(pair()), &Parameter::Ty(pair()), 1));
    assert_eq!(can_type_expr_as(&env, &live, &Expr::Tuple(vec![lit(1), lit(2)]), &pair(), 1), Some(true));
}

#[test]
fn owned_sub_shared_on_a_shared_type() {
    let env = env();
    let live = LivePlaces::new();
    let shared_int = Ty::ApplyPerm(Perm::Shared, Box::new(int_ty()));
    assert!(sub(&env, &live, &Parameter::Ty(int_ty()), &Parameter::Ty(shared_int), 4));
}

#[test]
fn a_class_is_a_subtype_of_itself() {
    let env = env();
    let live = LivePlaces::new();
    assert!(sub(&env, &live, &Parameter::Ty(point()), &Parameter::Ty(point()), 4));
    assert!(!sub(&env, &live, &Parameter::Ty(point()), &Parameter::Ty(int_ty()), 4));
    assert!(!sub(&env, &live, &Parameter::Ty(point()), &Parameter::Perm(Perm::Given), 4));
    assert!(sub(&env, &live, &Parameter::Perm(Perm::Given), &Parameter::Perm(Perm::Given), 4));
}

#[test]
fn nested_permissions_are_composed() {
    let t = Ty::ApplyPerm(Perm::Shared, Box::new(Ty::ApplyPerm(Perm::Given, Box::new(int_ty()))));
    let (p, u) = split_perm_ty(&t);
    assert!(matches!(p, Perm::Apply(ref l, ref r) if matches!(**l, Perm::Shared) && matches!(**r, Perm::Given)));
    assert!(is_named(&u, TypeName::Int));
    let (p, u) = split_perm_ty(&int_ty());
    assert!(matches!(p, Perm::Given));
    assert!(is_named(&u, TypeName::Int));
}

#[test]
fn literals_have_their_types() {
    let env = env();
    let live = LivePlaces::new();
    assert!(typed_as(type_expr(&env, &live, &lit(22), 4), TypeName::Int));
    assert!(typed_as(type_expr(&env, &live, &Expr::True, 4), TypeName::Bool));
    assert!(typed_as(type_expr(&env, &live, &Expr::False, 4), TypeName::Bool));
    assert!(typed_as(type_expr(&env, &live, &Expr::SizeOf(vec![]), 4), TypeName::Int));
}

#[test]
fn arithmetic_and_comparison() {
    let env = env();
    let live = LivePlaces::new();
    assert!(typed_as(type_expr(&env, &live, &binop(lit(1), BinaryOp::Add, lit(2)), 4), TypeName::Int));
    assert!(typed_as(type_expr(&env, &live, &binop(lit(1), BinaryOp::Lt, lit(2)), 4), TypeName::Bool));
    assert!(matches!(type_expr(&env, &live, &binop(Expr::True, BinaryOp::Add, lit(2)), 4), Typing::Fails));
    assert!(matches!(type_expr(&env, &live, &binop(lit(1), BinaryOp::Mul, Expr::False), 4), Typing::Fails));
}

#[test]
fn tuples_collect_their_types() {
    let env = env();
    let live = LivePlaces::new();
    match type_expr(&env, &live, &Expr::Tuple(vec![lit(1), Expr::True]), 4) {
        Typing::Typed(_, Ty::NamedTy(n)) => {
            assert!(matches!(n.name, TypeName::Tuple(2)));
            assert_eq!(n.parameters.len(), 2);
            assert!(matches!(&n.parameters[0], Parameter::Ty(t) if is_named(t, TypeName::Int)));
            assert!(matches!(&n.parameters[1], Parameter::Ty(t) if is_named(t, TypeName::Bool)));
        },
        _ => panic!("expected (Int, Bool)"),
    }
    assert!(typed_as(type_expr(&env, &live, &Expr::Tuple(vec![]), 4), TypeName::Tuple(0)));
    match type_exprs(&env, &live, &vec![lit(1), Expr::Panic], 4) {
        Typings::Fails => {},
        _ => panic!("panic has no type of its own"),
    }
}

#[test]
fn panic_has_every_expected_type() {
    let env = env();
    let live = LivePlaces::new();
    assert!(matches!(type_expr(&env, &live, &Expr::Panic, 4), Typing::Fails));
    assert!(typed_as(type_expr_as(&env, &live, &Expr::Panic, &point(), 4), TypeName::Id(ident("Point"))));
    assert_eq!(can_type_expr_as(&env, &live, &Expr::Panic, &int_ty(), 4), Some(true));
}

#[test]
fn typing_as_a_type_needs_a_subtype() {
    let env = env();
    let live = LivePlaces::new();
    assert_eq!(can_type_expr_as(&env, &live, &lit(3), &int_ty(), 4), Some(true));
    assert_eq!(can_type_expr_as(&env, &live, &lit(3), &bool_ty(), 4), Some(false));
    let shared_int = Ty::ApplyPerm(Perm::Shared, Box::new(int_ty()));
    assert_eq!(can_type_expr_as(&env, &live, &lit(3), &shared_int, 4), Some(true));
}

#[test]
fn share_and_if() {
    let env = env();
    let live = LivePlaces::new();
    match type_expr(&env, &live, &Expr::Share(Box::new(lit(1))), 4) {
        Typing::Typed(_, Ty::ApplyPerm(Perm::Shared, t)) => assert!(is_named(&t, TypeName::Int)),
        _ => panic!("expected shared Int"),
    }
    let unit_expr = Expr::Tuple(vec![]);
    let e = Expr::If(Box::new(Expr::True), Box::new(unit_expr.copy()), Box::new(unit_expr.copy()));
    assert!(typed_as(type_expr(&env, &live, &e, 4), TypeName::Tuple(0)));
    let bad = Expr::If(Box::new(lit(1)), Box::new(Expr::Tuple(vec![])), Box::new(Expr::Tuple(vec![])));
    assert!(matches!(type_expr(&env, &live, &bad, 4), Typing::Fails));
    let not_unit = Expr::If(Box::new(Expr::True), Box::new(lit(1)), Box::new(Expr::Tuple(vec![])));
    assert!(matches!(type_expr(&env, &live, &not_unit, 4), Typing::Fails));
}

#[test]
fn blocks_take_the_type_of_their_last_statement() {
    let env = env();
    let live = LivePlaces::new();
    assert!(typed_as(type_expr(&env, &live, &block(vec![lit(22)]), 4), TypeName::Int));
    assert!(typed_as(type_expr(&env, &live, &block(vec![lit(1), Expr::True]), 4), TypeName::Bool));
    assert!(typed_as(type_expr(&env, &live, &block(vec![]), 4), TypeName::Tuple(0)));
    assert!(typed_as(type_block(&env, &live, &Block { statements: vec![Statement::Expr(lit(5))] }, 4), TypeName::Int));
    assert!(typed_as(type_statements(&env, &live, &vec![Statement::Expr(Expr::True)], 4), TypeName::Bool));
    match type_expr(&env, &live, &block(vec![lit(22)]), 4) {
        Typing::Typed(after, _) => assert_eq!(after.fresh(), env.fresh()),
        _ => panic!("expected a type"),
    }
}

#[test]
fn uncovered_expressions_are_reported() {
    let env = env();
    let live = LivePlaces::new();
    let call = Expr::Call(Box::new(lit(1)), ident("f"), vec![], vec![]);
    assert!(matches!(type_expr(&env, &live, &call, 4), Typing::Unsupported));
    assert_eq!(can_type_expr_as(&env, &live, &call, &int_ty(), 4), None);
    let array = Expr::ArrayNew(vec![Parameter::Ty(int_ty())], Box::new(lit(3)));
    assert!(matches!(type_expr(&env, &live, &array, 4), Typing::Unsupported));
    // Loops and `break` have no typing rule.
    let with_break = Expr::Block(Block { statements: vec![Statement::Break] });
    assert!(matches!(type_expr(&env, &live, &with_break, 4), Typing::Fails));
    assert!(matches!(type_expr(&env, &live, &Expr::Clear(ident("x")), 4), Typing::Fails));
}

#[test]
fn method_bodies_are_typed_against_their_output() {
    let ok = method("answer", int_ty(), vec![Statement::Expr(lit(22))]);
    let program = Arc::new(Program { classes: vec![class("C", ClassPredicate::Given, vec![ok], vec![])] });
    assert!(check_program(&program).is_ok());
    let sum = method("sum", int_ty(), vec![Statement::Expr(binop(lit(1), BinaryOp::Add, lit(2)))]);
    let program = Arc::new(Program { classes: vec![class("C", ClassPredicate::Given, vec![sum], vec![])] });
    assert!(check_program(&program).is_ok());
    let bad = method("answer", int_ty(), vec![Statement::Expr(Expr::True)]);
    let program = Arc::new(Program { classes: vec![class("C", ClassPredicate::Given, vec![bad], vec![])] });
    assert!(matches!(check_program(&program), Err(TypeError::IllTypedBody)));
    let empty_for_int = method("answer", int_ty(), vec![]);
    let program = Arc::new(Program { classes: vec![class("C", ClassPredicate::Given, vec![empty_for_int], vec![])] });
    assert!(matches!(check_program(&program), Err(TypeError::IllTypedBody)));
    let pair = Ty::NamedTy(NamedTy { name: TypeName::Tuple(2), parameters: vec![Parameter::Ty(int_ty()), Parameter::Ty(int_ty())] });
    let both = method("both", pair, vec![Statement::Expr(Expr::Tuple(vec![lit(1), lit(2)]))]);
    let program = Arc::new(Program { classes: vec![class("C", ClassPredicate::Given, vec![both], vec![])] });
    assert!(check_program(&program).is_ok());
    let empty_for_unit = method("nothing", unit(), vec![]);
    let program = Arc::new(Program { classes: vec![class("C", ClassPredicate::Given, vec![empty_for_unit], vec![])] });
    assert!(check_program(&program).is_ok());
}

#[test]
fn drop_bodies_are_typed_as_unit() {
    let unit_stmt = Statement::Expr(Expr::Tuple(vec![]));
    let program = Arc::new(Program { classes: vec![class("C", ClassPredicate::Given, vec![], vec![unit_stmt])] });
    assert!(check_program(&program).is_ok());
    let unit_stmt = Statement::Expr(Expr::Tuple(vec![]));
    let program = Arc::new(Program { classes: vec![class("S", ClassPredicate::Shared, vec![], vec![unit_stmt])] });
    assert!(check_program(&program).is_ok());
    let program = Arc::new(Program { classes: vec![class("C", ClassPredicate::Given, vec![], vec![Statement::Expr(lit(1))])] });
    assert!(matches!(check_program(&program), Err(TypeError::IllTypedBody)));
    let call = Statement::Expr(Expr::Call(Box::new(lit(1)), ident("f"), vec![], vec![]));
    let program = Arc::new(Program { classes: vec![class("C", ClassPredicate::Given, vec![], vec![call])] });
    assert!(matches!(check_program(&program), Err(TypeError::UnsupportedBody)));
    let program = Arc::new(Program { classes: vec![class("C", ClassPredicate::Given, vec![], vec![Statement::Break])] });
    assert!(matches!(check_program(&program), Err(TypeError::IllTypedBody)));
}

fn access(var: &str, fields: &[&str], access: Access) -> Expr {
    let mut p = Place::from_var(Var::Id(ident(var)));
    for f in fields {
        p = p.project(&ident(f));
    }
    Expr::Place(PlaceExpr { place: p, access })
}

fn env_with_locals() -> Env {
    let mut env = env();
    assert!(env.push_local_variable(Var::Id(ident("p")), point()).is_ok());
    assert!(env.push_local_variable(Var::Id(ident("n")), int_ty()).is_ok());
    env
}

#[test]
fn accesses_to_places() {
    let env = env_with_locals();
    let nothing = LivePlaces::new();
    // Giving a place that is dead afterwards moves it.
    match type_expr(&env, &nothing, &access("p", &[], Access::Gv), 4) {
        Typing::Typed(_, t) => assert!(is_named(&t, TypeName::Id(ident("Point")))),
        _ => panic!("expected Point"),
    }
    // A reference has the place's type under `ref[p]`.
    match type_expr(&env, &nothing, &access("p", &[], Access::Rf), 4) {
        Typing::Typed(_, Ty::ApplyPerm(Perm::Rf(ps), t)) => {
            assert!(ps.len() == 1 && ps[0].same(&Place::from_var(Var::Id(ident("p")))));
            assert!(is_named(&t, TypeName::Id(ident("Point"))));
        },
        _ => panic!("expected ref[p] Point"),
    }
    // Dropping has type `()`.
    assert!(typed_as(type_expr(&env, &nothing, &access("p", &[], Access::Drop), 4), TypeName::Tuple(0)));
    // A field of a place.
    assert!(typed_as(type_expr(&env, &nothing, &access("p", &["x"], Access::Gv), 4), TypeName::Int));
    // Unknown variables and fields have no type.
    assert!(matches!(type_expr(&env, &nothing, &access("q", &[], Access::Gv), 4), Typing::Fails));
    assert!(matches!(type_expr(&env, &nothing, &access("p", &["z"], Access::Gv), 4), Typing::Fails));
}

#[test]
fn giving_a_live_place_needs_a_copy_type() {
    let env = env_with_locals();
    let p_live = LivePlaces::new().accessed(&Place::from_var(Var::Id(ident("p"))));
    assert!(matches!(type_expr(&env, &p_live, &access("p", &[], Access::Gv), 4), Typing::Fails));
    let n_live = LivePlaces::new().accessed(&Place::from_var(Var::Id(ident("n"))));
    assert!(typed_as(type_expr(&env, &n_live, &access("n", &[], Access::Gv), 4), TypeName::Int));
}

#[test]
fn method_bodies_may_use_self() {
    let self_x = Expr::Place(PlaceExpr { place: Place::from_var(Var::This).project(&ident("x")), access: Access::Gv });
    let get = method("get", int_ty(), vec![Statement::Expr(self_x)]);
    let program = Arc::new(Program { classes: vec![class("C", ClassPredicate::Given, vec![get], vec![])] });
    assert!(check_program(&program).is_ok());
    let self_give = Expr::Place(PlaceExpr { place: Place::from_var(Var::This), access: Access::Gv });
    let into_int = method("into_int", int_ty(), vec![Statement::Expr(self_give)]);
    let program = Arc::new(Program { classes: vec![class("C", ClassPredicate::Given, vec![into_int], vec![])] });
    assert!(matches!(check_program(&program), Err(TypeError::IllTypedBody)));
}

#[test]
fn types_and_errors_as_text() {
    let p = Place::from_var(Var::Id(ident("p"))).project(&ident("x"));
    let t = Ty::ApplyPerm(Perm::Rf(vec![p]), Box::new(int_ty()));
    assert_eq!(ty_to_string(&t), "ref[p.x] Int");
    let pair = Ty::NamedTy(NamedTy { name: TypeName::Tuple(2), parameters: vec![Parameter::Ty(int_ty()), Parameter::Ty(bool_ty())] });
    assert_eq!(ty_to_string(&pair), "(Int, Bool)");
    let shared_point = Ty::ApplyPerm(Perm::Apply(Box::new(Perm::Shared), Box::new(Perm::Given)), Box::new(point()));
    assert_eq!(ty_to_string(&shared_point), "shared given Point");
    assert_eq!(TypeError::WrongParameterKind(12).message(), "generic parameter 12 has the wrong kind");
    assert_eq!(TypeError::NoSuchVariable(Var::Fresh(3)).message(), "no variable named `@fresh3`");
    assert_eq!(TypeError::ShadowedVariable(Var::This).message(), "cannot push local variable `self`, it shadows another variable in scope");
    assert_eq!(TypeError::IllTypedBody.message(), "type check for the body failed");
}

#[test]
fn shared_permissions_on_int_make_no_difference() {
    let env = env_with_locals();
    let live = LivePlaces::new();
    let p = Place::from_var(Var::Id(ident("p")));
    let borrowed = Ty::ApplyPerm(Perm::Rf(vec![p]), Box::new(int_ty()));
    let shared = Ty::ApplyPerm(Perm::Shared, Box::new(int_ty()));
    assert!(sub(&env, &live, &Parameter::Ty(borrowed), &Parameter::Ty(int_ty()), 4));
    assert!(sub(&env, &live, &Parameter::Ty(shared), &Parameter::Ty(int_ty()), 4));
}

#[test]
fn expression_statements_leave_the_locals_as_they_were() {
    let env = env_with_locals();
    let live = LivePlaces::new();
    match type_expr(&env, &live, &block(vec![lit(1), access("p", &["x"], Access::Rf)]), 4) {
        Typing::Typed(after, _) => {
            assert!(after.has_local(&Var::Id(ident("p"))));
            assert!(after.has_local(&Var::Id(ident("n"))));
            assert!(!after.has_local(&Var::Fresh(0)));
            assert_eq!(after.fresh(), 0);
        },
        _ => panic!("expected a type"),
    }
}

fn let_stmt(name: &str, ty: Option<Ty>, e: Expr) -> Statement {
    let asc = match ty {
        Some(t) => Ascription::Ty(t),
        None => Ascription::NoTy,
    };
    Statement::Let(ident(name), asc, Box::new(e))
}

#[test]
fn let_statements_introduce_variables() {
    let env = env_with_locals();
    let live = LivePlaces::new();
    // { let y = 1; y.give } has type Int, and `y` is gone afterwards.
    let b = Expr::Block(Block { statements: vec![let_stmt("y", None, lit(1)), Statement::Expr(access("y", &[], Access::Gv))] });
    match type_expr(&env, &live, &b, 4) {
        Typing::Typed(after, t) => {
            assert!(is_named(&t, TypeName::Int));
            assert!(!after.has_local(&Var::Id(ident("y"))));
            assert!(after.has_local(&Var::Id(ident("p"))));
        },
        _ => panic!("expected Int"),
    }
    // A written type must be met.
    let b = Expr::Block(Block { statements: vec![let_stmt("y", Some(int_ty()), lit(1)), Statement::Expr(access("y", &[], Access::Gv))] });
    assert!(typed_as(type_expr(&env, &live, &b, 4), TypeName::Int));
    let b = Expr::Block(Block { statements: vec![let_stmt("y", Some(bool_ty()), lit(1))] });
    assert!(matches!(type_expr(&env, &live, &b, 4), Typing::Fails));
    // A `let` has type `()`.
    let b = Expr::Block(Block { statements: vec![let_stmt("y", None, lit(1))] });
    assert!(typed_as(type_expr(&env, &live, &b, 4), TypeName::Tuple(0)));
    // Shadowing a variable in scope fails.
    let b = Expr::Block(Block { statements: vec![let_stmt("n", None, lit(1))] });
    assert!(matches!(type_expr(&env, &live, &b, 4), Typing::Fails));
    // A result that borrows from the block's own variable is not covered.
    let b = Expr::Block(Block { statements: vec![let_stmt("y", None, lit(1)), Statement::Expr(access("y", &[], Access::Rf))] });
    assert!(matches!(type_expr(&env, &live, &b, 4), Typing::Unsupported));
}

#[test]
fn method_bodies_with_lets() {
    let body = vec![
        let_stmt("a", None, lit(20)),
        let_stmt("b", Some(int_ty()), lit(2)),
        Statement::Expr(binop(access("a", &[], Access::Gv), BinaryOp::Add, access("b", &[], Access::Gv))),
    ];
    let m = method("sum", int_ty(), body);
    let program = Arc::new(Program { classes: vec![class("C", ClassPredicate::Given, vec![m], vec![])] });
    assert!(check_program(&program).is_ok());
}

#[test]
fn assignments_store_into_places() {
    let env = env_with_locals();
    let live = LivePlaces::new();
    let assign = |var: &str, fields: &[&str], e: Expr| {
        let mut p = Place::from_var(Var::Id(ident(var)));
        for f in fields {
            p = p.project(&ident(f));
        }
        Expr::Block(Block { statements: vec![Statement::Reassign(p, e)] })
    };
    assert!(typed_as(type_expr(&env, &live, &assign("n", &[], lit(2)), 4), TypeName::Tuple(0)));
    assert!(typed_as(type_expr(&env, &live, &assign("p", &["x"], lit(3)), 4), TypeName::Tuple(0)));
    assert!(matches!(type_expr(&env, &live, &assign("n", &[], Expr::True), 4), Typing::Fails));
    assert!(matches!(type_expr(&env, &live, &assign("q", &[], lit(1)), 4), Typing::Fails));
    match type_expr(&env, &live, &assign("n", &[], lit(2)), 4) {
        Typing::Typed(after, _) => {
            assert!(after.has_local(&Var::Id(ident("n"))));
            assert_eq!(after.fresh(), 0);
        },
        _ => panic!("expected ()"),
    }
}

#[test]
fn constructing_objects() {
    let env = env_with_locals();
    let live = LivePlaces::new();
    let new_point = |es: Vec<Expr>| Expr::New(ident("Point"), vec![], es);
    match type_expr(&env, &live, &new_point(vec![lit(1)]), 4) {
        Typing::Typed(after, t) => {
            assert!(is_named(&t, TypeName::Id(ident("Point"))));
            assert_eq!(after.fresh(), env.fresh());
            assert!(!after.has_local(&Var::Fresh(0)));
        },
        _ => panic!("expected Point"),
    }
    assert!(matches!(type_expr(&env, &live, &new_point(vec![Expr::True]), 4), Typing::Fails));
    assert!(matches!(type_expr(&env, &live, &new_point(vec![]), 4), Typing::Fails));
    assert!(matches!(type_expr(&env, &live, &Expr::New(ident("Nope"), vec![], vec![]), 4), Typing::Fails));
    assert!(matches!(type_expr(&env, &live, &Expr::New(ident("Point"), vec![Parameter::Ty(int_ty())], vec![lit(1)]), 4), Typing::Fails));
}

#[test]
fn methods_may_construct_objects() {
    let make = method("make", point(), vec![Statement::Expr(Expr::New(ident("Point"), vec![], vec![lit(7)]))]);
    let program = Arc::new(Program {
        classes: vec![class("Point", ClassPredicate::Given, vec![], vec![]), class("Maker", ClassPredicate::Given, vec![make], vec![])],
    });
    assert!(check_program(&program).is_ok());
}
