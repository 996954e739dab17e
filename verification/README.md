# suppositions

A property testing library in the style of Hypothesis and Hedgehog: test
data is generated by drawing from an underlying pool of bytes, and a
failing example is shrunk by shrinking the pool it was drawn from.

- `src/` is the library, verified with Verus: the byte sources and the
  recorder, the shrinkers, the generators and their combinators, the
  property runner, and the van der Corput sequence. Each generator states
  in its contract what it makes of the bytes it draws; a collection
  other than a `Vec` or `VecDeque` states what it holds where its item
  type's ordering or hashing is a proper one.
- `app/` holds what stays outside the verified core: floating point
  generators, boxed generators, generators made from a plain function,
  and the `check` that catches panics and panics on a failing property.
- `tests/` holds the test suite.
