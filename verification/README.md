# codex_pet_island

The logic of a desktop pet that shows what the local Codex sessions are doing:
it reads the session logs and usage records that Codex writes on the machine,
decides the pet's state (working, completed, resting), lists one row per
project, and keeps the newest weekly usage record.

- `src/` is the library, verified with Verus: a JSON reader, the reading of
  session logs into a scan, project titles, the task list, the state machine,
  the choice of session files and the settings and dismissals of the window.
  The `law_*` proof functions state what holds across calls.
- `app/` is the Tauri program around it: the window, the tray, the settings
  store, the poller thread, and the reading of files from disk.
- `tests/` runs the library on concrete inputs.
