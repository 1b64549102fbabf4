# serde_fast_flatten

Field bookkeeping for structs whose fields are flattened into their parent
(`#[serde(flatten)]`), written so that deserializing a flattened struct costs
about as much as deserializing an unflattened one, and so that it also works
with formats that are not self-describing.

Layout:

- `src/` — the verified library (Verus):
  - `identifier.rs`: field identifiers (`FieldId`, `BorrowedFieldId`), shifting
    positional identifiers, and matching an identifier against a field.
  - `layout.rs`: the flat layout of a struct with flattened fields as a model:
    which leaf a key picks, what a map fills in, when a struct can be built;
    round-trip, last-value-wins and order laws.
  - `plan.rs`: what the derives compute from a struct's declaration: wire
    positions, field counts, flattening order, the shifts that route a
    positional identifier to the field it belongs to, missing-field messages.
  - `test_structs/`: an example hierarchy with hand-written field collectors,
    and the same hierarchy as plain data.
- `tests/` — tests, among them round trips through JSON, YAML, CBOR, bincode
  and bitcode.
- `app/` — the serde side: the `SerializeFields`, `DeserializeFields` and
  `FieldDeserializer` traits, serde impls, and the code generation of the
  derives.
