# falcon_plonky3

Verified witness generation and constraint semantics for Falcon-1024 signature verification
as Plonky3 STARK AIRs over the KoalaBear field, plus the ML-DSA-44 challenge-bytes AIR.

## Layout

- `src/` — the verified library (Verus).
  - `params`, `bits`, `field`, `trace`: Falcon parameters, bit decompositions, KoalaBear
    arithmetic on canonical `u32` cells, row-major trace matrices.
  - `air/`: one module per AIR. Each states, as a predicate over rows, what the AIR's `eval`
    enforces, and proves soundness (a satisfied row carries the intended integer fact) and
    completeness (the builder's rows satisfy it): NTT layer, full NTT, dual-NTT equation,
    coefficient dual-zero, L² bound, hash-to-point rejection sampling, the stacked
    single-trace AIR, the credential variants and the statement-bound wrapper.
  - `witness`: trace builders for the parsed-verify statement, and the stacked trace with its
    completeness and soundness laws.
  - `hash/`: rejection sampling, the SHAKE256 sponge simulator recording every Keccak-f input
    (Keccak-f itself is `p3_keccak::KeccakF`), squeeze provenance, and the hash-to-point trace.
  - `digest`: statement digests hashed with the KoalaBear Poseidon2 sponge of `p3_symmetric`.
  - `mldsa`: the ML-DSA-44 challenge-bytes trace.
- `tests/` — executable tests of the library.
- `app/` — Plonky3 `Air` implementations, STARK configurations, and the prove / verify
  orchestration over `falcon_rust` keys and signatures.
