# SocketSweep

A storage analyser for Android phones: a daemon on the phone walks the
filesystem and streams one frame per directory over an ADB tunnel; the
desktop host folds the frames into a flat tree and answers the frontend's
small queries against it.

`src/` is the verified library, checked with Verus:

- `protocol` — the values on the wire and their length-prefixed framing.
- `guard` — the path check that authorises every delete on the phone.
- `scan` — the per-directory fold of the filesystem walk and its counters.
- `daemon` — the daemon's command line and its answer to each request.
- `arena` — the tree: ingest, removal, listings, paths, search, treemap and
  the per-category breakdown, with the laws that tie them together.
- `device`, `session`, `host`, `history` — the desktop host's decisions:
  which phone, how the daemon is started and asked, how a scan and a delete
  change the tree, and the record of the last scan.
- `text` — display conversions and the character-level helpers.

`app/` holds the programs around it: the daemon's socket loop and disk work,
the walk itself, ADB access, the tunnel, the history file and the host's
commands.
