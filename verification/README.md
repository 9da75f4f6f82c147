# siderust_pod

Verified core of a precise-orbit-determination toolkit, written in Verus.

`src/` is the library. Every function in it carries a contract, and Verus
proves each one except those of the five trusted wrappers around outside
calls (`String::from_utf8`, chrono's `NaiveDate::from_yo_opt` twice,
chrono's `NaiveDateTime::parse_from_str`, and `format!("{:?}")` on a
string), whose contracts state what those calls return:

- `tle` — NORAD two-/three-line element sets: the checksum, Alpha-5
  catalogue numbers, the column parser and writer, the builder, the CCSDS
  OMM record and its designator conversion, the KVN line notation and the
  checks that turn KVN fields into an OMM record, and the reading of an
  ISO-8601 epoch text into a calendar instant (through chrono's parser).
  Real elements are kept as exact decimals (`decimal`), and `render`
  rounds the exact decimal to a column's places. Formatting the nearest
  binary float instead can round a decimal tie the other way: 0.00025 to
  four places is `0.0002` here, where `{:.4}` on the `f64` gives `0.0003`.
  `tle::round_trip` proves that, for a record whose every field fits its
  column (or that the writer accepts, with finite fixed-point
  elements, a year in 1957..=2056, a trimmed designator and an epoch that
  stays a day of its year once rounded), what the writer writes parses
  back to the same record, each real element rounded as its column rounds
  it. The writer refuses a value too wide for its column, so every pair of
  lines it gives has two 69-byte ASCII lines with valid checksums.
- `spice` — NAIF body identifiers and the integer layout checks of SPK
  Chebyshev segments.
- `sgp4` — the checked mean elements an SGP4 propagator starts from.
- `products`, `service`, `observations`, `lambert` — the SP3 header, the
  residual CSV rows, residual labels and groups, and the enumerations and
  errors of the estimation pipeline.

`app/` holds what works in binary floating point or on files around the
library: Izzo's Lambert solver, residual statistics, the OMM KVN/JSON
encoders, SPK segment evaluation, the Parquet residual writer and the
conversion to the SGP4 crate's elements.

`tests/` exercises the library from outside.
