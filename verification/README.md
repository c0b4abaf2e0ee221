# Captain

Captain checks Cap'n Proto schema changes for backwards-incompatible edits. It compares an
earlier and a later set of schema files and reports what can break old readers, old writers
or generated RPC clients.

```sh
captain check --before 'old/**/*.capnp' --after 'new/**/*.capnp'
captain check --before-ref origin/main --after-ref HEAD --path 'schemas/**/*.capnp'
captain check --compare-ref origin/main --path 'schemas/**/*.capnp' -I schemas
```

`--before`, `--after` and `--path` take files, directories and glob patterns with `*`, `?` and
`**`. In the modes with git references, relative paths and import paths lie inside a temporary
export of each side.

The exit status is 0 if the schemas are compatible, 1 if they are not, and 2 if the check could
not be carried out.

## Layout

- `src/` is the library. Everything in it is verified with Verus: reading schemas, comparing
  them, selecting files, reading the command line, and the order in which a check goes on.
- `app/` is the program around it. It looks at the file system, runs `git`, `tar` and `capnp`,
  and hands the library what came of it.
- `tests/` runs the library.

## What is proved

Every function states what it returns. On top of that, proof functions named `law_*` state what
holds of the library as a whole; `compatibility::law_compatible_iff` says what it takes for two
schema sets to be compatible, and `trees::law_worktree_does_not_affect_the_report` that two
checks of the same trees come to the same report.
