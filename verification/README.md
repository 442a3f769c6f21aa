# sandbox-vfs

A virtual file-system layer that routes the file-system calls of a process
through user-space backends, verified with Verus.

- `src/` is the verified library:
  - `path` and `path_laws`: byte paths as `std::path::Path` reads them
    (components, joining, normalizing) and their laws.
  - `filesystem`: the `LowLevelFS` trait, whose operations are described by
    relations that each backend states, and the `NodeBacking` trait for the
    kernel objects behind in-memory files.
  - `impls::memory` (with `dir_entries` and `memory_laws`): the in-memory
    namespace: nodes, sorted directory listings, link and handle counts, and
    what create, open, unlink, rmdir, rename, chmod, stat and read_dir do to
    it.
  - `impls::overlay` (with `overlay_laws`): a writable top layer over lower
    layers; `impls::bindfs`: path rewriting under a real root.
  - `root_vfs`: mount dispatch, working directory and descriptor tracking;
    a descriptor keeps the opened object its filesystem gave, and `fstat`,
    `getdents64` and simple relative `openat`/`mkdirat` act on that object.
  - `linux_dirents`: the `linux_dirent64` records of `getdents64`.
  - `interpose` and `sys`: the decisions of the libc hooks and the Linux
    (x86_64) constants they use.
- `app/` is the interposition layer: the libc hooks, memfd backing and real
  bind mounts, which do the I/O that the library describes.
- `tests/` exercises the library.
