# ffs

A file system that keeps its files as blobs on several storage backends. The logic is verified
with Verus; the program around it is ordinary Rust.

- `src/` is the library.
  - `state`, `file_tree`, `upload`, `lease`: a revision of the file system, the changes to it, and
    what has to be uploaded for it. `state_laws` and `tree_laws` prove what holds of them as a
    whole.
  - `state_manager`, `commit`, `leases`: when a state is committed, the steps of a commit, and the
    leases that are in force.
  - `backend`: the names of blobs, the errors of backends, and the decisions of the dummy backend.
    `bootstrap` is the file that the first backend is opened from.
  - `db`: the tables of the database and the transactions on them. `db::laws` proves what they
    keep.
  - `splitter`, `chunk_alloc`: cutting files into chunks, and spreading chunks over backends.
  - `prelude`, `text`, `bytes`, `maps`: paths, texts, numbers and ordered collections.
- `tests/` runs the library.
- `app/` is the program: arguments, prompts, files, tasks, and the layout of stored values.
