# quantum_torrent

The logic of a desktop BitTorrent client, verified with Verus.

- `src/` is the verified library: human-readable sizes and dates, URL
  encoding, the status bar's connectivity verdict, binding to one network
  interface and failing closed, the download queue and seeding limits, the
  torrent list's rows and magnet links, the loopback preview server's
  routing and range handling, and torrent search through declarative JSON and
  RSS/Atom plugins (merging, reading responses, ranking).
- `app/` is the Tauri application around it: commands, the engine session,
  background tasks, disk and network I/O, and the float-valued transfer
  rates.
- `tests/` exercises the library on concrete values.
