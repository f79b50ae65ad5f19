# factor

Integer factorization and the polynomial arithmetic behind it, for numbers below `2^128`,
verified with Verus.

- `modint`: Montgomery arithmetic modulo an odd `n < 2^127`, with run-time (`DynamicModInt`)
  and compile-time (`StaticModInt<M>`) moduli.
- `convolution`: number-theoretic transforms, products (schoolbook, Karatsuba, by transforms,
  and modulo any `M` through three transform primes and Garner reconstruction) and middle
  products; `convolution::u128::product_laws` and `ntt_laws` hold the algebra behind them.
- `garner`: reconstruction from residues modulo the three transform primes.
- `fps`: truncated power series and polynomials: products, inverses by Newton's iteration,
  evaluation.
- `multipoint_evaluation`: evaluation of one polynomial at many points through a subproduct
  tree and transposed products.
- `primality`: Miller–Rabin, strong Lucas and Baillie–PSW tests, Jacobi and Legendre
  symbols; with the arithmetic modulo a prime in `primality::fermat`, the proofs show that
  every prime passes the Miller–Rabin test and that `legendre` is the Legendre symbol (Euler's
  criterion).
- `pollard_rho`, `ecm`, `wrapper`: Pollard's rho (Floyd and Brent), the elliptic curve method,
  and complete factorization on top of any of them.
- `perfect_power`, `utility`, `bits`, `arith`, `sums`: integer roots, a seeded generator, a
  sieve, bit operations, and the arithmetic lemmas the proofs share.

`tests/` exercises the library on concrete values.
