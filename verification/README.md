# baker

Asset baking for a colouring app, verified with Verus: the checks that accept or
reject an artist's source layers, the region map and its downsampling, seed
reading, the debug attachments, the thumbnail, the synthetic and negative test
assets, and the workspace tooling (dependency-direction policy, App Shell lint,
the iOS bindings' fingerprint and lock).

- `src/` — the library. Every function carries a contract and is proved; the
  `law_*` proof functions state properties that span several functions, such
  as that a derived or synthetic seeds image reads back as one seed per area.
- `tests/` — tests of the library on concrete values.
- `app/` — the command-line shell: file and process I/O, the float-valued
  colour-space verdict and line ratio, JSON and TOML.
- `extras/` — two small C programs that produced tables the library holds:
  the exact ties of the f32 luma, and the preview candidate colours.

Outside crates called from the library, behind trusted wrappers: `jpeg-encoder`
(the thumbnail), `png` (encoding and decoding) and `sha2` (the bindings'
fingerprint). The
binding generator, `uniffi_bindgen`, is called from `app/`.

Not included: the bake pipeline itself (`bake`, `BakeOptions` and writing the
`.colorpack` package), the torture asset's content hash, and a source's category
as a `colorpack` type. All of them need the workspace's own `colorpack` crate,
which is not part of this crate, and `bake` also relies on stages (region
growing, orphan merging, closing) that are not here. The library's checks,
downsampling, thumbnail, debug attachments and report are the stages such a
pipeline calls; `app/debug_io.rs` and the report writer are kept ready for it
and are not yet called.
