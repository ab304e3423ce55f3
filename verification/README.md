# sotte

The acceleration-structure core of a CPU path tracer, verified with Verus.

- `src/math/morton.rs`: 3 x 10-bit and 3 x 21-bit Morton codes (bit spreading and
  interleaving), with laws on the codes they produce.
- `src/math/radix.rs`: stable least-significant-digit radix sort by key, sequential
  and with the counting done in parallel, with laws on stable sorts.
- `src/larp/karras.rs`: the binary radix tree of sorted keys (ranges and splits).
- `src/larp/union.rs`: unions of box sequences under a commutative, associative union.
- `src/larp/lbvh.rs`: the linear bounding volume hierarchy: construction (sequential
  and parallel), bounding-box propagation and traversal.
- `app/`: the floating-point side (boxes, rays, transforms, encoding points as Morton
  codes) and adapters from boxed primitives to the verified hierarchy.
