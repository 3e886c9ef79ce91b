# secure_pipeline

Packet transport for printable ASCII text over a strict wire alphabet, written in Verus.

- `src/base64url.rs`: unpadded base64url `encode` / `decode`, their model (`encode_bytes`,
  `decode_result`) and the round-trip law.
- `src/validation.rs`: `validate_wire_format`, the `^[A-Za-z0-9_-]+$` ingress check.
- `src/pipeline.rs`: the printable-ASCII policy, `~` / space escaping, packet encoding and
  decoding, the fixed-window `RateLimiter`, and the laws that tie them together (escaping is
  collision-proof, packets are wire safe, decoding a packet gives its text back).
- `src/concurrent.rs`: the decisions of batch encoding (worker count, job routing, putting
  results back in job order).
- `src/search.rs`: "first element that fails a predicate", shared by the checks above.
- `app/lib.rs`: what cannot be verified here: the process-wide rate limiter behind the
  one-argument `encode_packet` / `decode_packet`, and the thread pool behind `encode_all`.
