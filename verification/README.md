# LogCrate

LogCrate watches directories for logs and archives, opens the logs in them,
and searches the files of a machine by name.

`src/` is the library: the rules of the application as verified functions.
Each states in its contract what it returns or changes.

- `archive`, `rar`: archives, their entries, and which of them are logs
- `lines`, `sessions`: logs that are stored, split into lines and shown
- `paths`, `watch`, `watch_events`, `stable`, `inventory`: watched directories
- `ntfs`, `mft_paths`, `usn`, `volume`, `ipc`: volumes and the index service
- `search_*`, `tokens`: the file search
- `lifecycle`, `startup`, `startup_trace`: the window and the start
- `bytes`, `order`, `text`, `text_map`: what the others are built from

`app/` performs what the library decides: files, the store, the query index,
pipes, and the window. `tests/` runs the library on examples.
