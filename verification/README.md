# libeq_eqg

Readers for EverQuest EQG data, each specified over the input bytes and
proved to meet its specification.

- `src/lib.rs`: `identify`, which recognizes the EQGZ, EQGT, EQGM, EQTZP and
  EQOBG signatures, with its specification `identify_spec` and the laws that a
  recognized header, and a nonempty input that is not recognized, keeps its
  answer whatever follows it, and that the proper prefixes of a recognized
  header are reported as truncated.
- `src/zone.rs`: `zone::parse` for binary EQGZ descriptors (versions 1 and 2),
  specified by `zone::parse_spec`, a description of the format as spec
  functions over the input bytes.
- `src/mesh.rs`: `mesh::parse` for EQGT terrain and EQGM model geometry
  (versions 1 to 3), specified by `mesh::parse_spec`.
- `src/bytes.rs`: little-endian words, signatures, NUL-terminated strings,
  runs of counted records, and the generic lemmas about such runs.

Each reader proves that its result is exactly what its specification gives,
error values included, and states as laws that parsing depends only on the
bytes the records consume (appended bytes become trailing data, every
truncation of the records is rejected), where each part of a parsed resource
comes from in the input, and that every reference in it resolves.

Floating-point values are kept as their IEEE-754 bit patterns (`u32`).
`app/` adds error types with `Display` (through `thiserror`) and `f32` views
of those bit patterns.
