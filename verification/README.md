# disk_monitor

The verified core of a disk usage monitor for the GNOME panel: a daemon
samples the mounted filesystems and keeps, per mount, its largest files; a
panel indicator shows the usage and offers actions on those files.

- `src/` is the library, written in Verus and proved:
  - `disk_source`: the fields and octal escapes of `/proc/mounts`, which
    filesystems are reported, the step-by-step reading of the mount table
    (one block device sampled once, root first then by mount point), and the
    mock source.
  - `largest_files`: the per-mount cache of scan results, the coalescing of
    rescan requests, and the selection of the largest files of a walk, with
    hard-linked files counted once and, once the list is full, the least
    kept file (by size, then by path) giving way to a larger one.
  - `tray`, `menu`: the indicator's state, icon names, byte counts as the
    menu writes them (the exact rounding of the floating-point formatting,
    done on integers), and the entries of its menus and tooltip.
  - `actions`: the address of a rescan request.
  - `model`, `text`, `arrange`: the data types, text helpers and
    rearrangements that the others share.
- `app/` is the process side: file and `statvfs` I/O, the filesystem walk,
  the async scanner, desktop actions, the `ksni` indicator and the command
  line.
- `tests/` runs the library on concrete inputs, and compares parts of it
  with the standard library's own behaviour on many generated inputs.

Two collections are held differently than a plain Rust program would:

- The largest-files cache is a list of slots with distinct mount points, not
  a `HashMap<String, _>`. vstd specifies `HashMap` through
  `obeys_key_model`, which it grants to integer keys only; for a `String`
  key that fact could only be assumed, and `assume` has no place here. The
  list's contract is the map it stands for (`get`, `put`, `retain` over a
  `Map<Seq<char>, _>`).
- The top list of a walk is a `Vec` rather than a binary heap: std's
  `BinaryHeap` has no vstd specification. Its contract says which file gives
  way, the least by size and then by path, as a min-heap of `(size, path)`
  pairs would.
