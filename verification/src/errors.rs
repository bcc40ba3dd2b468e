//! The ways type checking can fail.
use vstd::prelude::*;

use crate::grammar::{ClassName, FieldId, STy, SVar, Ty, Var, Variable};

verus! {

/// An error found while type checking.
pub enum TypeError {
    /// No class has this name.
    NoSuchClass(ClassName),
    /// A generic type was given the wrong number of parameters.
    WrongParameterCount,
    /// The generic parameter at this index has the wrong kind.
    WrongParameterKind(usize),
    /// No local variable has this name.
    NoSuchVariable(Var),
    /// Introducing this variable would shadow one already in scope.
    ShadowedVariable(Var),
    /// The type has no field of this name: the name, the type searched and
    /// the names of the fields it has.
    NoSuchField(FieldId, Ty, Vec<FieldId>),
    /// Fields of tuples are not supported.
    TupleFields,
    /// A generic variable is used outside its scope.
    VariableNotInScope(Variable),
    /// A predicate was applied to something that is not a generic variable.
    PredicateOnNonVariable,
    /// A predicate could not be proven.
    PredicateNotProven,
    /// The method body uses expressions this checker does not type.
    UnsupportedBody,
    /// The method body cannot be typed as a value of the declared output.
    IllTypedBody,
    /// The fuel given to a recursive question ran out before it was answered.
    OutOfFuel,
}

pub enum STypeError {
    NoSuchClass(Seq<char>),
    WrongParameterCount,
    WrongParameterKind(usize),
    NoSuchVariable(SVar),
    ShadowedVariable(SVar),
    NoSuchField(Seq<char>, STy, Seq<Seq<char>>),
    TupleFields,
    VariableNotInScope(Variable),
    PredicateOnNonVariable,
    PredicateNotProven,
    UnsupportedBody,
    IllTypedBody,
    OutOfFuel,
}

impl View for TypeError {
    type V = STypeError;

    open spec fn view(&self) -> STypeError {
        match self {
            TypeError::NoSuchClass(c) => STypeError::NoSuchClass(c@),
            TypeError::WrongParameterCount => STypeError::WrongParameterCount,
            TypeError::WrongParameterKind(i) => STypeError::WrongParameterKind(*i),
            TypeError::NoSuchVariable(v) => STypeError::NoSuchVariable(v@),
            TypeError::ShadowedVariable(v) => STypeError::ShadowedVariable(v@),
            TypeError::NoSuchField(f, t, fs) => STypeError::NoSuchField(f@, t@, fs@.map_values(|x: FieldId| x@)),
            TypeError::TupleFields => STypeError::TupleFields,
            TypeError::VariableNotInScope(v) => STypeError::VariableNotInScope(*v),
            TypeError::PredicateOnNonVariable => STypeError::PredicateOnNonVariable,
            TypeError::PredicateNotProven => STypeError::PredicateNotProven,
            TypeError::UnsupportedBody => STypeError::UnsupportedBody,
            TypeError::IllTypedBody => STypeError::IllTypedBody,
            TypeError::OutOfFuel => STypeError::OutOfFuel,
        }
    }
}

} // verus!
