# serde_ipld_dagcbor

A decoder of DAG-CBOR data, with contracts that Verus proves.

- `src/grammar.rs` says what the decoder accepts, as functions of the bytes that are read: heads of
  data items, whole data items, enums, CIDs, documents. Every contract is stated over them.
- `src/read.rs` has the sources of bytes: slices, slices beside a scratch buffer of fixed size, and
  mutable slices that double as their own scratch buffer.
- `src/de.rs` has the decoder, its settings, and streams of values.
- `src/access.rs` has the access to what arrays, maps, enums and CIDs hold.
- `src/value.rs` and `src/error.rs` have what comes out: tokens, values and errors.
- `src/laws.rs` states what holds of the decoder as a whole, such as that documents are prefix-free
  and that every kind of slice is decoded alike; its submodules hold the proofs by induction.
- `src/outside.rs` has the calls into other crates and the standard library, whose contracts are
  taken on trust.
- `app/` implements Serde's traits on top of the library, and reads from any `std::io::Read`.

Numbers in floating point leave the library as their bits.
