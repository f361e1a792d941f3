# opentelemetry-traceable

Dynamic, per-function tracing on top of OpenTelemetry. A function is annotated once; which
functions are traced, and by whom, is decided while the program runs.

- `src/` is the library. Its behaviour is stated in contracts and proved with Verus.
  - `registry`, `keys`, `text`: the sites of a program, and the order of their keys and ids.
  - `selector`, `glob`: exact keys and `*` patterns, and what a list of them selects.
  - `mask`, `instrumentation`: 64 slots, the bits that they have in the masks of the sites,
    and the spans of a call, one per active slot.
  - `stylus`: a default instrumentation beside named ones; ids as short texts (`codec`), sets of
    names as Bloom filters (`subset`), and the catalog of what there is to trace.
  - `traceable`: what the `#[traceable]` attribute makes of a function.
- `tests/` runs the library with the OpenTelemetry SDK and an in-memory exporter.
- `app/` is a command line tool for encoded lists of ids, and the plumbing to a running process:
  sites collected by the linker, slots behind an atomic pointer, the catalog as JSON, the size of a
  filter, and the expansion of the attribute.

The calls into `opentelemetry`, `smallvec`, `base64` and `leb128`, and the one into the standard
library that has no specification yet, stand in small functions marked
`#[verifier::external_body]`. What is taken for granted of them is written in their contracts, in
`instrumentation/tracer.rs`, `instrumentation/context.rs`, `stylus/url_base64.rs`,
`stylus/varint.rs` and `stylus/codec.rs`.
