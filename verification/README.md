# notion_river

The decision logic of a Notion-style tiling window manager for River, as a
Verus library: every function in `src/` carries a contract that Verus proves.

- `src/layout.rs`: the frame tree (splits, frames, tabs), its identifiers
  and the navigation between laid-out frames.
- `src/workspace.rs`, `src/assignment.rs`, `src/reassign_laws.rs`: the
  workspaces, which output shows which, monitor memory, and the laws of
  reassignment.
- `src/window_actions.rs`, `src/requests.rs`, `src/focus.rs`,
  `src/placement.rs`, `src/manage.rs`, `src/pointer_ops.rs`: what key
  actions, control requests, new windows, pointer presses and drags do to
  the state, and what the compositor is told.
- `src/bindings.rs`, `src/actions.rs`, `src/config.rs`: key bindings and the
  built-in profiles.
- `src/control.rs`, `src/ipc.rs`, `src/rendering.rs`: the control-socket
  protocol and the status-bar feed.
- `app/`: the program around the library: configuration and state files,
  the control socket, key-name lookup through xkbcommon, and the
  floating-point frame geometry.

`tests/` exercises the library on concrete values.
