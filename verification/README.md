# wordpress_archive

Capturing and reading `WordPress` REST API v2 resources, with machine-checked contracts.

- `src/` is the library, verified with Verus: the drivers that decide what a capture session
  requests next (`archive`, `comments`, `update`), the linking of archive records into captures
  (`evidence`), recovery of a session's checkpoint (`resume`, `run`), archive checks (`lint`,
  `read`), completion of missing comment pages (`complete`), and the resource models (`model`).
- `app/` is the command-line tool around it: argument parsing, HTTP sessions, WARC files, and JSON.
- `tests/` exercises the library from outside.
