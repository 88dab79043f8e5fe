# open_websandbox

The runtime of a web sandbox: an HTTP service that runs commands, works on the
files of a workspace, keeps terminals alive between connections, and packs a
workspace up and puts it back.

- `src/` is the library: every decision that the service makes, written in
  Verus with a contract and a proof. What the library asks of the machine (the
  target of a link, the names in a directory, the bytes of a file, whether a
  shell still runs) comes in as an argument. Calls into other crates stand in
  `src/outside.rs`, with what is taken on trust about them.
- `app/` is the service: the router, the handlers, the pseudo-terminals, the
  streams and the types that travel as JSON.
- `tests/` runs the library on concrete values.

Main modules of the library: `auth` (the session key), `safe_path` (confinement
to the workspace), `files`, `archive`, `search`, `rank` and `fnmatch` (the file
routes), `compare`, `steps` and `decode` (differences between files), `execute`,
`terminals` and `scrollback`, `snapshot`, `skills`, `ports`, `system`,
`config` and `broker` (configuration), `crd` (sandboxes in the cluster).
