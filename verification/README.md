# fs_layout

A filesystem layout simulator for research and education, verified with Verus.

It models the core data structures of a Unix-like filesystem:

- `bitmap` — block allocation bitmap (`BlockBitmap`), viewed as a sequence of
  allocated flags;
- `block` — fixed-size data blocks (`Block`) with clipped reads and writes;
- `inode` — inode metadata (`Inode`, `FileType`);
- `directory` — the directory tree (`DirectoryTree`), viewed as a map from
  directory inode to its listing of names and inode numbers;
- `path` — path splitting and resolution (`PathResolver`).

Every public function carries a `requires`/`ensures` contract over these
views, and the `law_*` proof functions state the properties that hold across
calls (what a read returns after a write, what a lookup finds after an add or
a remove, how dirname and basename recompose a path, and so on).
The tests under `tests/` exercise the compiled library.
