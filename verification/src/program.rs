//! Checking a whole program: every class declaration in turn.
use std::sync::Arc;
use vstd::prelude::*;

use crate::classes::{check_class, class_ok};
use crate::errors::TypeError;
use crate::grammar::{Program, SClassDecl};

verus! {

/// The number of fields declared by all classes of the program.
pub open spec fn program_fields(classes: Seq<SClassDecl>) -> nat
    decreases classes.len(),
{
    if classes.len() == 0 {
        0
    } else {
        program_fields(classes.drop_last()) + classes.last().data.fields.len()
    }
}

/// How many times the type of a place may be looked up along one line of
/// reasoning when checking the program: one more than the number of fields
/// it declares. Questions that need more lookups than this are answered as
/// if they failed.
pub open spec fn program_fuel(classes: Seq<SClassDecl>) -> nat {
    program_fields(classes) + 1
}

proof fn lemma_program_fields_prefix(classes: Seq<SClassDecl>, i: int)
    requires
        0 <= i <= classes.len(),
    ensures
        program_fields(classes.subrange(0, i)) <= program_fields(classes),
    decreases classes.len() - i,
{
    if i < classes.len() {
        lemma_program_fields_prefix(classes, i + 1);
        let t = classes.subrange(0, i + 1);
        assert(t.drop_last() =~= classes.subrange(0, i));
    } else {
        assert(classes.subrange(0, i) =~= classes);
    }
}

/// True if every class of the program is well formed.
pub open spec fn program_ok(classes: Seq<SClassDecl>) -> bool {
    forall|i: int| 0 <= i < classes.len() ==> class_ok(classes, #[trigger] classes[i], program_fuel(classes))
}

/// Checks every class of the program, stopping at the first that is not
/// well formed.
pub fn check_program(program: &Arc<Program>) -> (r: Result<(), TypeError>)
    requires
        program_fields((**program)@) < usize::MAX,
        forall|i: int, j: int| 0 <= i < (**program)@.len() && 0 <= j < (**program)@[i].data.methods.len()
            ==> (#[trigger] (**program)@[i]).kinds.len() + (#[trigger] (**program)@[i].data.methods[j]).kinds.len() <= usize::MAX,
        forall|i: int| 0 <= i < (**program)@.len() ==> (#[trigger] (**program)@[i]).kinds.len() < usize::MAX,
    ensures
        r is Ok <==> program_ok((**program)@),
{
    let ghost classes = (**program)@;
    let mut total: usize = 0;
    let mut i: usize = 0;
    proof {
        assert(classes.subrange(0, 0) =~= Seq::<SClassDecl>::empty());
    }
    while i < program.classes.len()
        invariant
            classes == (**program)@,
            classes.len() == program.classes@.len(),
            program_fields(classes) < usize::MAX,
            i <= classes.len(),
            total == program_fields(classes.subrange(0, i as int)),
        decreases program.classes.len() - i,
    {
        let ghost sub = classes.subrange(0, i + 1);
        assert(sub.drop_last() =~= classes.subrange(0, i as int));
        assert(sub.last() == program.classes@[i as int]@);
        proof {
            lemma_program_fields_prefix(classes, i + 1);
        }
        total = total + program.classes[i].binder.term.fields.len();
        i = i + 1;
    }
    assert(classes.subrange(0, classes.len() as int) =~= classes);
    let fuel = total + 1;
    let mut k: usize = 0;
    while k < program.classes.len()
        invariant
            classes == (**program)@,
            classes.len() == program.classes@.len(),
            fuel == program_fuel(classes),
            k <= classes.len(),
            forall|i: int, j: int| 0 <= i < classes.len() && 0 <= j < classes[i].data.methods.len()
                ==> (#[trigger] classes[i]).kinds.len() + (#[trigger] classes[i].data.methods[j]).kinds.len() <= usize::MAX,
            forall|i: int| 0 <= i < classes.len() ==> (#[trigger] classes[i]).kinds.len() < usize::MAX,
            forall|j: int| 0 <= j < k ==> class_ok(classes, #[trigger] classes[j], program_fuel(classes)),
        decreases program.classes.len() - k,
    {
        let decl = &program.classes[k];
        assert(classes[k as int] == decl@);
        assert forall|j: int| 0 <= j < decl@.data.methods.len() implies decl@.kinds.len() + (#[trigger] decl@.data.methods[j]).kinds.len() <= usize::MAX by {
            assert(classes[k as int].kinds.len() + classes[k as int].data.methods[j].kinds.len() <= usize::MAX);
        }
        match check_class(program, decl, fuel) {
            Ok(()) => {},
            Err(e) => return Err(e),
        }
        k = k + 1;
    }
    Ok(())
}

} // verus!
