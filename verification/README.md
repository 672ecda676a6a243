# oslo

The interactive half of the oslo shell, as a library whose behaviour is stated in contracts and
proved with Verus.

## Layout

- `src/` — the verified library: key decoding (`term`, `readline`, `keys`), history expansion
  (`history_expand`), abbreviations (`abbr`), completion matching and the dropdown's layout and
  rendering (`matching`, `completion`, `dropdown`), highlighting (`highlight`), the prompt's
  arithmetic (`prompt`), terminal marks (`marks`), colour-reply parsing (`query`), the redraw
  discipline (`paint`), the scanner animation (`scanner`), blocks of output (`block`), the
  settings read from a config (`settings`), recall of earlier lines (`recall`), frecency
  (`frecency`), the history finder's selection (`finder`), and the `ui` widgets' decisions
  (`ask`): each widget is a step function from state and key to the next state or its answer;
  the line editor's keymap and its key-at-a-time state machine (`edit`), the handlers a config
  binds to keys and what they are told and answer (`editor`), and the completion spec for
  `cargo` (`command_spec`).
- `tests/` — tests of the library on concrete values.
- `app/` — what cannot be verified: raw mode, reading keys from the terminal, the loops that draw
  and wait for `ui input`, `ui confirm`, `ui write`, `ui spin`, the completion menu and the line
  editor, running commands, the file system, and the arithmetic that is done in floating point.
  The loops of `ui choose`, `ui filter`, `ui table` and `ui file` are not here: their decisions
  are in `src/ask`, but ranking a query against the rows needs a fuzzy matcher this project does
  not have.

Every public function states in its `ensures` what it returns; the laws that relate several of
them are public proof functions named `law_…`.
