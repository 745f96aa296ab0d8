# functerm

The verified core of FuncTerm, a daemon that gives MCP clients terminal tabs running
PowerShell, bash, zsh, Nushell, `cmd.exe`, Bun or Python.

- `src/` is checked by Verus: shell quoting (`quote`), keyboard input and host replies
  (`keyboard`), the per-shell dispatcher line, keyboard conversion and shim names
  (`drivers`), shell names (`shell`), environment snapshots and the session
  environment (`environment`, `shims`, `variables`), decoding of captured output
  (`output`), and the small decisions of the daemon, the shims and the tool inputs
  (`daemon`, `routing`, `request`). The host operating system is a `Platform` value.
- `app/` holds what Verus does not see: atomic file publication, process trees, the
  standard streams, `Path`/`OsString` conversions and the serde/MCP request types.
- `tests/` exercises the library on concrete values.

Not covered here: the terminal model (reply ordering against Win32 input-mode
changes, title capture), the dispatch of daemon requests to the session manager, shell
startup and the daemon's request loops. They depend on the session manager, the IPC
transport and the terminal emulator, which this crate does not include.
