# template_cke

Chunk keys from templates. A template such as `c/{0}/{-1:03}_{*}` is parsed
once into literal text and placeholders; each list of chunk grid indices is
then rendered into a key:

- `{i}` renders index `i`, `{-i}` index `len - i`;
- `{*}` renders every index that no other placeholder names, joined by the
  separator;
- `:0w` after a placeholder zero-pads its numbers to `w` digits;
- `{{` and `}}` stand for literal braces.

## Layout

- `src/` — the library, written in Verus with its contracts and proofs:
  - `decimal.rs` reading and writing decimal numbers;
  - `part.rs` the parts of a template and the reading of a placeholder;
  - `parser.rs` splitting a format string into parts;
  - `interpolator.rs` checking the parts and rendering keys;
  - `zarrs.rs` the chunk key encoding, its configuration and store keys;
  - `laws.rs` properties of the library as a whole;
  - `errors.rs` the error types.
- `tests/` — tests of the library on concrete values.
- `app/` — the `zarrs` plugin around the library: serde configuration,
  registration and the `zarrs` traits, and error types with messages.
