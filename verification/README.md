# zerobrew

Formula ownership for a package installer, verified with Verus: which installed
formulas the user asked for, which are there only because another formula needs
them, and what may be removed.

- `src/ownership.rs` is the model: the record of installed formulas, their
  declared dependencies and store entries, and what every operation makes of it.
- `src/database.rs` keeps that record in memory.
- `src/installer.rs` uninstalls, sweeps and collects. It decides on the record
  in memory and queues actions (`src/action.rs`) for the machine.
- `src/commands/` holds `list`, `autoremove` and `uninstall`.
- `src/laws.rs` states what holds of the operations together.
- `app/` carries the queued actions out.
