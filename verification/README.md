# dada_model

A verified model of the core of the Dada type system: the grammar of types,
permissions, places and method bodies, and the judgments the type checker
makes about declarations, types, permissions, places, liens and liveness.
Method and drop bodies are typed by rules for literals, arithmetic and
comparisons, tuples, `share`, `is_last_ref`, `if`, `panic`, accesses to
places, object construction, expression, `let` and assignment statements
and blocks, with subtyping between the result and the declared type. A
body that calls methods or uses arrays is refused as unsupported.

Every function is written in Verus and carries a contract
stated over mathematical views (`Seq`, `Set`, `Map`, spec enums); the laws
that relate several functions are public proof functions named `law_*`.

Layout of `src/`:

- `grammar`: programs, classes, methods, types, permissions, places and
  their views; `binder`: substitution of generic arguments.
- `env`: the typing environment (generic variables, assumptions, locals,
  fresh temporaries); `places`: the types and fields of places;
  `types`: well-formedness of types and permissions.
- `predicates`: proving `copy`, `move`, `owned`, `mut`, `given`, `shared`
  and variance predicates; `ownership`: the environment's own copy and
  moved questions.
- `lien_chains`, `chain_sets`, `is_`: lien chains and the questions they
  answer; `perms`, `summaries`: permission summaries and layouts;
  `lien2`: the possible lien sets of a parameter; `red_terms`,
  `perm_matcher`: reduced terms and flattened permissions; `redperms`:
  reducing permissions to chains of links and comparing chains;
  `pop_normalize`: rewriting permissions and types when temporaries go out
  of scope.
- `local_liens`, `accesses`, `liveness`, `flow`: the lien sets that can be
  derived on local places, which accesses they permit, live places and
  moved places; `outcomes`: joining the results of several derivations.
- `in_flight`: moving the in-flight value into a place, and renaming.
- `subtypes`: subtyping of types and permissions; `expressions`: typing
  expressions, statements and blocks; `text`: types and errors as text.
- `classes`, `methods`, `program`: checking declarations.

Recursive questions that look up the types of places take an explicit
`fuel` argument: the number of lookups allowed along any line of reasoning.
