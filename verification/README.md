# eui_client

The EUI client's own logic, written in Verus and proved against its
contracts: the wire between a window and its worker, the mesh container,
the small text formats the client keeps on disk, the permission sheet, a
text field's editing keys, and the decisions around them.

## Layout

- `src/wire.rs`, `src/quad.rs`, `src/drawlist.rs`, `src/access.rs`,
  `src/reply.rs`, `src/worker.rs` — the private wire between a window and
  its worker: every request and reply, with a proof that what is written
  reads back as itself.
- `src/pipe.rs`, `src/link.rs` — framing on the pipe, the status a window
  keeps between replies, the paint answered again without waking the
  worker, and what a worker that stopped answering leaves behind.
- `src/mesh.rs` — the mesh container: its rules, and encode/decode.
- `src/save.rs` — the chunks of a file a save is owed, in order and under
  a ceiling.
- `src/upload.rs` — a picked file cut into numbered chunks under its
  ceiling.
- `src/manifest.rs` — manifest pins, remembered grants, store paths.
- `src/recent.rs`, `src/install.rs` — the recent list and the launcher
  record, the launcher entries each desktop reads, and what may be removed.
- `src/icon.rs` — a picture written as a PNG of the size its slot
  declares, and the `.icns` and `.ico` containers of them.
- `src/instance.rs` — the message a launcher hands a running instance.
- `src/ios.rs` — where an iOS build keeps its things.
- `src/serving.rs`, `src/session.rs` — the worker loop's rule for what
  comes before `Config`, and what the driver makes of a `Welcome` and of a
  batch it has seen before, and when the clock owes a frame.
- `src/consent.rs`, `src/field.rs`, `src/edit.rs`, `src/track.rs` — the
  permission sheet, a field's editing keys, caret movement over UTF-8
  text, and a slider's steps and keys.
- `src/scancode.rs`, `src/transport.rs`, `src/driver.rs`, `src/nfc.rs`,
  `src/place.rs`, `src/text.rs` — the key table, a first render fetched
  over HTTPS, the driver's small types, and text helpers.
- `app/main.rs` — the command line, files and the instance socket.
- `tests/` — ordinary Rust tests against the compiled library.

Outside crates: `ring` checks manifest signatures, `blake3` names a tree
and `png` writes an icon's pictures, each behind one trusted wrapper whose
contract says what is assumed.
