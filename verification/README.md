# textnav

Verified navigation primitives for a terminal file viewer, written in Verus.

- `src/prompt.rs` — the single-line query buffer (`PromptInput`).
- `src/search.rs` — smartcase literal substring search with byte offsets
  (`find_matches`), with proofs that matches come in document order, never
  overlap, lie on character boundaries and miss no occurrence.
- `src/highlight.rs` — re-segmentation of styled lines at match boundaries
  (`apply`), with proofs that the text of every line is kept and that no
  sub-span straddles a match boundary.
- `src/index.rs` — the selection rules of the file index (prune `.git`,
  list files only).
- `app/` — the directory walk (with the `ignore` crate) and the bridge to
  `ratatui`'s `Line`/`Span`/`Style`.
