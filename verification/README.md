# qemu-hmp

A standalone HMP monitor for QEMU that talks to it only through QMP, with
its logic written in Verus and proved against its contracts.

## Layout

- `src/` — the verified library.
  - `completer.rs`, `arg_completion.rs`, `qom_completion.rs`,
    `hmp_completer.rs`, `filenames.rs`, `schema.rs`: tab completion of HMP
    command lines (command names, argument definitions, QOM paths and
    values, `object_add` keyval specs, `change`, `sendkey`, JSON QMP
    commands) and the cache built from `query-qmp-schema`. What only QEMU
    or the file system knows is asked for with `CompletionStep::Need`.
  - `expr.rs`: the HMP expression evaluator; register values are asked
    for one at a time with `EvalStep::NeedRegister`.
  - `format.rs`, `json.rs`: byte sizes, help text (reStructuredText) for
    the terminal, JSON printing, QMP events.
  - `highlighter.rs`, `prompt.rs`, `repl.rs`: the line editor's colouring
    and prompt, and the decisions of the interactive, batch and pipe modes.
  - `discover.rs`: QMP sockets on QEMU command lines, and the menu that
    picks one.
  - `terminal_image.rs`: inline images with the Kitty graphics protocol.
  - `qmp.rs`, `commands/`, `listing.rs`: QMP requests and replies; where
    a command line goes; Xen event channel commands; the command names
    of QEMU's `help` listings.
  - `spans.rs`: every suggestion replaces text that ends at the cursor.
- `tests/` — tests of the library.
- `app/` — the program: command-line options, the QMP connection, the
  line editor, `/proc` and the file system.

Laws that span functions are public proof functions named `law_*`.
