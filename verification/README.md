# lane

Lanes are overlays on the files of one worktree. A lane holds, for each path that it touched, a
list of byte operations against the base file, or that the file is deleted there. Lanes do not see
each other, and the base stays as it is until operations are accepted.

    lane run login --attempts 5 -- <command>
    lane check login --name test -- <command>
    lane review login --human
    lane accept login-3
    lane discard login

## Layout

- `src/` is the library, in Verus. The state of lanes and what is done with it are stated over
  mathematical values (`repo::Repo`, `lane_file::File`, `ops::Op`); every function has a contract,
  and what holds across functions is proved in `laws` and beside the parts that it speaks of.
  - `types`, `text`, `bytes`, `text_map`, `lists`, `sorting`, `numbers`, `os_path`: values and collections
  - `op_id`, `order_key`, `ops`, `diff`, `difference`, `rebase`, `conflict`, `promotion`,
    `combine`, `lane_file`, `repo`, `whole_lane`: operations, files and lanes
  - `upkeep`, `repo_laws`, `rebase_laws`: what lanes keep true of the repo, and what follows from it
  - `vfs`, `commit`: lanes over the files of a worktree, and acceptance as one step
  - `cli`: review, comparison of attempts, acceptance, and what is printed
  - `storage`: rows and blobs, their inspection and clean-up, locks, and retries
  - `materialize`, `virtual_exec`, `winfsp_mount`: commands that run in the view of a lane
  - `projection`, `demo`: line ends, and one file shown through lanes over HTTP
- `app/` is the program: arguments, files, the database, processes, mounts and the server.
- `tests/` runs the library.

Paths and names of lanes are text; bytes of files are never interpreted, but for previews and for
line ends in `projection`.
