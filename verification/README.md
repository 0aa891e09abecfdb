# sdt_core

A verified library for the Sequential Directory Tree (SDT) layout, in which
covered file and directory names are bijective base-26 / base-36 ordinals of at
most three characters, and each node may carry a `.0` sidecar of nine values.

- `src/` is the library, verified with Verus: the codec (`kind`, `codec`,
  `decimal`), the classifier (`classify`), sidecar text (`sidecar`), derived
  values (`derive`), the `check` verdict on a `.0` (`check`), names and plans (`naming`, `code`, `labels`,
  `portability`) and a stable sort (`order`). Laws are the `law_*` proof
  functions.
- `app/` is the `sdt` command-line tool: argument parsing, filesystem access,
  printing and watching, around the library.
- `tests/` runs the library on concrete values.
