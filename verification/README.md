# akita

Verified building blocks of a lattice-based polynomial commitment scheme, in
Rust with contracts proved by Verus.

* Algebra: `field`, `prime_field`, `primality`, `quadratic`, `cyclotomic`,
  `cyclic`, `eq_poly`, `split_eq`, `uni_poly`, with shared lemmas in
  `ring_lemmas`.
* Prover kernels: `quotients`, `fused`, `relation`, `compression`, `dense`,
  `decompose`, `sparse_sampler`. Rows are spread over threads through rayon;
  what is believed of it stands in `parallel` and at the end of `eq_poly`.
* Verifier: `transcript`, `l2_norm`, `root`, `grinding`, `nonce_stream`.
* Schedules: `params`, `generated`, `rules`, `expand`, `walk`, `compact`,
  `descriptor`, `identity`, `emit`, `producers`, `workers`.
* Planning: `opening_domain`, `candidates`, `assignments`, `proof_cost`.
* Errors and text: `error`, `text`, `describe`. How std quotes a string is
  believed in `error`.

`rules`, `candidates`, `quotients` and `l2_norm` ask for security estimates and
transform capacities through traits; `family` holds implementations of them with
closed formulas. A question that such a trait refuses is answered with its own
error, which the callers hand on. Laws that span several functions are proof functions whose
names begin with `law_`.

`app/` holds what needs a random source, threads, the environment or the clock.
