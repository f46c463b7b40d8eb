# c2pa-structured-text

Embedding, locating and hard-binding C2PA manifest blocks in structured text
(source code, configuration files, markup): the block

```
-----BEGIN C2PA MANIFEST----- <reference> -----END C2PA MANIFEST-----
```

sits in a comment on the first or the last line, or inside front matter, and
the `c2pa.hash.data` binding covers the raw bytes of the file with that block
excluded.

The library is written in Verus and every function in `src/` carries a
contract that Verus proves:

- `codec` — standard Base64, with the proof that decoding inverts encoding;
- `embed` — the three placements of the block;
- `extract` — locating the single block and classifying its reference;
- `hardbinding` — the exclusion range, the covered bytes, computing and
  verifying the data hash (SHA-2 digests come from the `sha2` crate);
- `bridge` — handing a resolved manifest store to `c2pa-rs` for signature,
  trust and assertion validation;
- `roundtrip` — proofs that what is embedded is found again and that the
  binding of embedded text covers exactly the content that was given;
- `error`, `text`, `digest` — errors, string helpers, and the digests.

`app/` holds what is not verified: the Python and JavaScript bindings and
the HTTP(S) fetching of URL references.
