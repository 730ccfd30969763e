# libsurfer

The logic of a waveform and pipeline-trace viewer, as a library whose behaviour is
stated in `requires`/`ensures` contracts and proved with Verus.

## Layout

- `src/` — the verified library.
  - `konata/` — pipeline traces: the projection of trace transactions and relations into
    instruction rows, stages and dependency edges (`records`, `relations`, `construct`,
    `pipeline`), the model with its lookup indexes (`model`, `index`, `thread_index`,
    `csr`, `range_index`, `visibility`, `bits`), names, labels and search texts, the
    layout of rows in a view, dependency walks, and tile settings.
  - `keyboard_shortcuts` — actions, their shortcuts, the dispatch order, and the text
    form of bindings; `keys` — count prefixes; `item_list` — item identities, selection
    commands and the nesting rule; `fst_export` — time-stamp rescaling; `logs`,
    `session`, `graphics` — plain records.
- `tests/` — tests of the library.
- `app/` — the host side, not verified: reading transactions with `ftr_parser`,
  floating-point view state and geometry, colors, shortcut texts as egui writes them,
  error display and the log store.
