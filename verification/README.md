# jaq_core values

JSON values for a jq interpreter, with the operations that jq performs on
them, verified with Verus.

Numbers are integers (sign and magnitude of a machine word), binary64
floats (held as their bit patterns) or numbers that fit neither (held as
their text). Objects keep their entries in insertion order, each key once:
`Obj` keeps its entries private under a type invariant that no key occurs
twice, and `Val::copy` states that the model of every value is
well-formed in this sense. The entries are a `Vec` rather than
`indexmap::IndexMap`, and lookups scan the entries. Both ways of holding
that map were tried: declaring `IndexMap` as an outside type makes Verus
reject `Val` ("recursively uses type ... in a non-positive position"),
and holding the map in an opaque struct whose contents are named by a
spec function leaves the model of a value without a termination proof
("could not prove termination"), since nothing shows that the values in
the map are smaller than the value that holds it.

## Layout

- `src/raw.rs`: parsing JSON text with `serde_json` into a tree, and the
  value of that tree.
- `src/val.rs`: the value type, its model `Json`, errors, and the simple
  queries (`len`, `typ`, `has`, `keys`, `iter`, ...).
- `src/integer.rs`: the integer type and decimal text.
- `src/float.rs`: what the library needs to know of binary64 bit patterns
  (the total order, absolute value, negation, conversion from and to
  machine integers).
- `src/order.rs`: equality and the total order on values.
- `src/sort.rs`: stable sorting of arrays, by value or by keys.
- `src/contain.rs`: containment.
- `src/ops.rs`: arithmetic; float arithmetic is done by a function that
  the caller passes in.
- `src/render.rs`: the text of a value.
- `src/laws.rs`, `src/order_laws.rs`, `src/order_trans.rs`: properties
  that hold for all values (or, where stated, for a class of them).
- `app/`: conversion from and to `serde_json` values, float arithmetic
  and the decimal text of floats.
- `tests/`: tests on concrete values.
