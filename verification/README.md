# bili_clip_flow

The rules of a live recorder and clip tool for Bilibili, written in Verus: every function of
`src/` states what it does and is proved to do it.

- `src/flv.rs`, `timestamps.rs`, `pipeline.rs`, `session.rs`: an FLV stream is cut into tags, its
  timestamps are repaired, and a session decides what is written, when a file ends and when to
  reconnect.
- `src/stream.rs`, `settings.rs`, `runtime.rs`, `recording.rs`, `danmaku.rs`: addresses of streams,
  rooms that are being recorded, names and notes of files, recovery, and the chat protocol.
- `src/bilibili.rs`, `cookie.rs`, `login.rs`: requests to the site, its rate limits and its logins.
- `src/clips.rs`, `segments.rs`, `anchors.rs`: lively passages of a broadcast and the clips cut out
  of it.
- `src/season.rs`, `archive.rs`, `restore.rs`, `requests.rs`: seasons are saved and restored.
- `src/baidu_*.rs`: copies on a net disk.
- `src/project.rs`, `package.rs`, `unpack.rs`, `toolbox.rs`: projects of the mask editor and the
  arguments of the tools that it runs.
- `src/text.rs`, `json.rs`: texts and JSON values.
- `src/outside.rs`: the functions of other crates that the library relies on, with what it believes
  of them.

Proof functions whose names begin with `law_` state what holds of the library as a whole.

`app/` is the program around the library: the network, files, processes, the database, and what is
computed in floating point. `tests/` holds tests that run the library.
