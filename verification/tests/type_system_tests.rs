use std::sync::Arc;

use dada_model::errors::TypeError;
use dada_model::grammar::{
    Atomic, Binder, Block, ClassDecl, ClassDeclBoundData, ClassPredicate, DropBody, FieldDecl,
    Ident, LocalVariableDecl, MethodBody, MethodDecl, MethodDeclBoundData, NamedTy, Perm, Place,
    Program, ThisDecl, Ty, TypeName, Var,
};
use dada_model::program::check_program;

fn ident(s: &str) -> Ident {
    Ident::from_str(s)
}

fn named(name: TypeName) -> Ty {
    Ty::NamedTy(NamedTy { name, parameters: vec![] })
}

fn int_ty() -> Ty {
    named(TypeName::Int)
}

fn unit() -> Ty {
    named(TypeName::Tuple(0))
}

fn class_ty(name: &str) -> Ty {
    named(TypeName::Id(ident(name)))
}

fn place(var: &str, fields: &[&str]) -> Place {
    let mut p = Place::from_var(Var::Id(ident(var)));
    for f in fields {
        p = p.project(&ident(f));
    }
    p
}

fn field(name: &str, ty: Ty) -> FieldDecl {
    FieldDecl { atomic: Atomic::No, name: ident(name), ty }
}

fn input(name: &str, ty: Ty) -> LocalVariableDecl {
    LocalVariableDecl { name: ident(name), ty }
}

fn method(name: &str, inputs: Vec<LocalVariableDecl>, output: Ty) -> MethodDecl {
    MethodDecl {
        name: ident(name),
        binder: Binder {
            kinds: vec![],
            term: MethodDeclBoundData {
                this: ThisDecl { perm: Perm::Given },
                inputs,
                output,
                predicates: vec![],
                body: MethodBody::Block(Block { statements: vec![] }),
            },
        },
    }
}

fn class(name: &str, fields: Vec<FieldDecl>, methods: Vec<MethodDecl>) -> ClassDecl {
    ClassDecl {
        class_predicate: ClassPredicate::Given,
        name: ident(name),
        binder: Binder {
            kinds: vec![],
            term: ClassDeclBoundData {
                predicates: vec![],
                fields,
                methods,
                drop_body: DropBody { block: Block { statements: vec![] } },
            },
        },
    }
}

fn point_fields() -> Vec<FieldDecl> {
    vec![
        field("x", Ty::ApplyPerm(Perm::Shared, Box::new(int_ty()))),
        field("y", Ty::ApplyPerm(Perm::Shared, Box::new(int_ty()))),
    ]
}

/// A method parameter whose type borrows from fields of another parameter.
#[test]
fn ok_field_name_in_fn_parameter() {
    let m = method(
        "no_such_class",
        vec![
            input("c", Ty::ApplyPerm(Perm::Given, Box::new(class_ty("Point")))),
            input("x", Ty::ApplyPerm(Perm::Rf(vec![place("c", &["x"])]), Box::new(int_ty()))),
            input("y", Ty::ApplyPerm(Perm::Rf(vec![place("c", &["y"])]), Box::new(int_ty()))),
        ],
        unit(),
    );
    let program = Arc::new(Program { classes: vec![class("Point", point_fields(), vec![m])] });
    assert!(check_program(&program).is_ok());
}

/// A method parameter whose type names a class that does not exist.
#[test]
fn bad_class_name_in_fn_parameter() {
    let m = method(
        "no_such_class",
        vec![input("c", Ty::ApplyPerm(Perm::Given, Box::new(class_ty("TypeName"))))],
        unit(),
    );
    let program = Arc::new(Program { classes: vec![class("OtherClass", vec![], vec![m])] });
    match check_program(&program) {
        Err(e) => {
            assert_eq!(e.message(), "check class name `TypeName`");
            match e {
                TypeError::NoSuchClass(name) => assert!(name.same(&ident("TypeName"))),
                _ => panic!("expected an unknown class"),
            }
        },
        _ => panic!("expected an unknown class"),
    }
}

/// A method parameter whose type borrows from a field that does not exist.
#[test]
fn bad_field_name_in_fn_parameter() {
    let m = method(
        "no_such_class",
        vec![
            input("c", Ty::ApplyPerm(Perm::Given, Box::new(class_ty("Point")))),
            input("x", Ty::ApplyPerm(Perm::Rf(vec![place("c", &["z"])]), Box::new(int_ty()))),
        ],
        unit(),
    );
    let program = Arc::new(Program { classes: vec![class("Point", point_fields(), vec![m])] });
    let result = check_program(&program);
    if let Err(e) = &result {
        assert_eq!(e.message(), "field `z` not found in type `given Point` (found: [x, y])");
    }
    match result {
        Err(TypeError::NoSuchField(name, ty, found)) => {
            // field `z` not found in type `given Point` (found: [x, y])
            assert!(name.same(&ident("z")));
            match ty {
                Ty::ApplyPerm(Perm::Given, inner) => assert!(matches!(*inner, Ty::NamedTy(_))),
                _ => panic!("expected `given Point`"),
            }
            assert_eq!(found.len(), 2);
            assert!(found[0].same(&ident("x")) && found[1].same(&ident("y")));
        },
        _ => panic!("expected an unknown field"),
    }
}

use dada_model::env::Env;
use dada_model::grammar::{BoundVar, Kind, Parameter, Variable};
use dada_model::types::{check_perm, check_type};

fn program_env(classes: Vec<ClassDecl>) -> Env {
    Env::new(Arc::new(Program { classes }))
}

#[test]
fn unknown_class_in_type() {
    let env = program_env(vec![]);
    assert!(matches!(check_type(&env, &class_ty("Nope")), Err(TypeError::NoSuchClass(_))));
    assert!(check_type(&env, &int_ty()).is_ok());
}

#[test]
fn wrong_number_of_parameters() {
    let env = program_env(vec![class("Point", point_fields(), vec![])]);
    let int_of_int = Ty::NamedTy(NamedTy { name: TypeName::Int, parameters: vec![Parameter::Ty(int_ty())] });
    assert!(matches!(check_type(&env, &int_of_int), Err(TypeError::WrongParameterCount)));
    let point_of_int = Ty::NamedTy(NamedTy { name: TypeName::Id(ident("Point")), parameters: vec![Parameter::Ty(int_ty())] });
    assert!(matches!(check_type(&env, &point_of_int), Err(TypeError::WrongParameterCount)));
    let pair = Ty::NamedTy(NamedTy {
        name: TypeName::Tuple(2),
        parameters: vec![Parameter::Ty(int_ty()), Parameter::Perm(Perm::Given)],
    });
    assert!(matches!(check_type(&env, &pair), Err(TypeError::WrongParameterKind(1))));
}

#[test]
fn variables_must_be_in_scope() {
    let mut env = program_env(vec![]);
    let vars = env.open_universal_vars(&vec![Kind::Perm]);
    assert!(check_perm(&env, &Perm::Var(Variable::UniversalVar(vars[0]))).is_ok());
    let other = dada_model::grammar::UniversalVar { kind: Kind::Perm, var_index: 7 };
    assert!(matches!(
        check_perm(&env, &Perm::Var(Variable::UniversalVar(other))),
        Err(TypeError::VariableNotInScope(_))
    ));
}

#[test]
fn places_in_permissions_must_have_types() {
    let mut env = program_env(vec![class("Point", point_fields(), vec![])]);
    assert!(env.push_local_variable(Var::Id(ident("p")), class_ty("Point")).is_ok());
    assert!(check_perm(&env, &Perm::Mt(vec![place("p", &["x"])])).is_ok());
    assert!(matches!(check_perm(&env, &Perm::Mt(vec![place("p", &["w"])])), Err(TypeError::NoSuchField(..))));
    assert!(matches!(check_perm(&env, &Perm::Rf(vec![place("q", &[])])), Err(TypeError::NoSuchVariable(_))));
}

fn shared_class(name: &str, fields: Vec<FieldDecl>) -> ClassDecl {
    let mut c = class(name, fields, vec![]);
    c.class_predicate = ClassPredicate::Shared;
    c
}

#[test]
fn shared_class_fields_must_be_shared() {
    let ok = shared_class("Pair", vec![field("a", int_ty()), field("b", int_ty())]);
    let program = Arc::new(Program { classes: vec![ok] });
    assert!(check_program(&program).is_ok());
    let holder = shared_class("Holder", vec![field("p", class_ty("Point"))]);
    let program = Arc::new(Program { classes: vec![class("Point", point_fields(), vec![]), holder] });
    assert!(matches!(check_program(&program), Err(TypeError::PredicateNotProven)));
}

#[test]
fn method_bodies_with_unsupported_statements_are_refused() {
    let mut m = method("f", vec![], unit());
    m.binder.term.body = MethodBody::Block(Block {
        statements: vec![dada_model::grammar::Statement::Expr(dada_model::grammar::Expr::Call(
            Box::new(dada_model::grammar::Expr::Integer(1)),
            ident("g"),
            vec![],
            vec![],
        ))],
    });
    let program = Arc::new(Program { classes: vec![class("C", vec![], vec![m])] });
    assert!(matches!(check_program(&program), Err(TypeError::UnsupportedBody)));
    let trusted = {
        let mut m = method("g", vec![], int_ty());
        m.binder.term.body = MethodBody::Trusted;
        m
    };
    let program = Arc::new(Program { classes: vec![class("C", vec![], vec![trusted])] });
    assert!(check_program(&program).is_ok());
}

#[test]
fn inputs_may_not_shadow() {
    let m = method("f", vec![input("a", int_ty()), input("a", int_ty())], unit());
    let program = Arc::new(Program { classes: vec![class("C", vec![], vec![m])] });
    assert!(matches!(check_program(&program), Err(TypeError::ShadowedVariable(_))));
}

#[test]
fn generic_class_methods_see_class_parameters() {
    // class Box[ty T] { value: T; fn get(given self, t: T) -> () }
    let t_in_class = Ty::Var(Variable::BoundVar(BoundVar { debruijn: 0, var_index: 0, kind: Kind::Ty }));
    let t_in_method = Ty::Var(Variable::BoundVar(BoundVar { debruijn: 1, var_index: 0, kind: Kind::Ty }));
    let mut c = class("Box", vec![field("value", t_in_class)], vec![method("get", vec![input("t", t_in_method)], unit())]);
    c.binder.kinds = vec![Kind::Ty];
    let program = Arc::new(Program { classes: vec![c] });
    assert!(check_program(&program).is_ok());
}
