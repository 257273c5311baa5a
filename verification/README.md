# obd_session_rs

An OBD-II session engine whose decisions are verified with Verus: wire codecs for
text (ELM327, STN) and binary (DVI) adapters, 11- and 29-bit addressing, the
command queue, batching of requests, periodic streaming, caches, and the calls of
a C host.

- `src/` is the verified library. Every function works on plain values; time comes
  in as a number, and state is taken as `&mut self`. Module documentation says what
  each part models; the laws that span functions stand at the end of their modules.
- `tests/` exercises the library from outside.
- `app/` is the runtime around it: threads, locks, clocks, files, JSON types and
  the C interface. It performs what the library decides.

What the library takes from elsewhere without proof is marked
`#[verifier::external_body]` or `assume_specification`: identifiers (`ids`), JSON
(`json`), Unicode case and character classes (`text`, `cache`).
