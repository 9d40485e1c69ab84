# duckdb_kart

A DuckDB extension that reads table datasets from Kart repositories, with
its logic verified by Verus.

- `src/` is the verified library: the MessagePack decoder, base64 decoding
  of feature file names, legend parsing and compilation, GeoPackage to WKB
  unwrapping, the walk of feature trees, path lookup in git trees, result
  column types and the conversion of stored values into result cells.
  Every public function states its result in its contract.
- `app/` holds what the verifier does not see: the DuckDB C API, the
  extension entry points and callbacks, reading git objects with `gix`,
  parsing `schema.json` with `serde_json`, threads, and floating point.
- `tests/` exercises the library on concrete values.

The legends of a dataset are kept in a vector with unique names and
last-entry-wins lookup rather than in a `HashMap<String, _>`: with `String`
keys, Verus's specification of `HashMap` lets nothing be proved of the
map's contents (not even that one insertion into an empty map leaves one
entry), so the map's behaviour is stated and proved over the vector.
