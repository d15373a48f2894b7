# Spacemap

A live disk usage map for Linux. Each physical disk is a row; partitions, free
space, directories and files are nested boxes. A background daemon walks the
mounted file systems, keeps the trees on disk and watches for changes.

## Layout

- `src/` is the library, verified with Verus: the data, the decisions and the
  computations, but for what is floating point.
  - `text`, `path`, `order`, `sort`, `index`, `path_map`: texts, paths made of
    bytes, and small collections keyed by path.
  - `mounts`, `discover`: which mounts there are, and on which disks.
  - `tree`, `tree_remove`, `tree_prune`, `tree_view`: the tree of a mount, how
    it changes, and what is shown of it.
  - `scan`, `rescan`: how a walk becomes a tree, and how a tree follows
    changes.
  - `snapshot`, `mount_view`, `pool`, `engine`, `ipc`: the state of the
    scanner, the map that is sent to clients, and the messages.
  - `color`, `map`, `ui`, `feed`: what the window draws, how clicks and keys
    change it, and who feeds it.
  - `tree_laws`, `index_laws`, `change_laws`, `prune_laws`, `scan_laws`,
    `rescan_laws`, `view_laws`: what holds of several of these together. Public
    proof functions whose names begin with `law_` state such facts, there and
    beside the functions they speak of.
- `app/` is the program: the walk, the watches, the sockets, the cache files,
  the window, and the placing of tiles, which is floating point.
- `tests/` runs the library on concrete values.

## Use

`spacemap` opens the window and scans by itself where no daemon runs;
`spacemap --daemon`, or the program called as `spacemapd`, is the daemon. Cached trees live in
`~/.local/share/spacemap/`; the socket is `$XDG_RUNTIME_DIR/spacemap.sock`.

- Click selects a tile and opens a folder in place.
- Double-click or Shift-click on a folder zooms into it.
- Esc zooms out, closes opened folders, and lets go of the disk.
- Open reveals the selection in the file manager.
- Hatched tiles are free space.
