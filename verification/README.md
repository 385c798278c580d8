# freedroid

The backend logic of Freedroid, an Android file manager that drives `adb`:
which device paths may be touched and how commands for the device shell are
quoted and built, how the output of `adb devices -l`, `stat`, `ls` and
`ip addr` is read, how transfer progress is followed, how local and MTP
listings are ordered, and the inode and open-file bookkeeping of the Finder
mount. Every function in `src/` carries a contract, and Verus proves
all of them but the trusted items that call outside code: the wrappers
`decode_lossy` (std's `String::from_utf8_lossy`) and `match_groups` (the
`regex` crate), and the contracts assumed for std's `String::push` and
`str::to_lowercase`. Their doc comments say what is believed of them.

- `src/text.rs` — splitting, trimming, searching, comparing, decimal numbers.
- `src/sort.rs` — stable ordering of listings (one group first, then by name), a merge sort.
- `src/adb.rs` — shell quoting, device path rules, device commands, command results.
- `src/devices.rs`, `src/files.rs`, `src/wifi.rs` — reading adb's replies.
- `src/transfer.rs` — the progress state machine of push and pull.
- `src/local.rs`, `src/mtp.rs` — local and MTP listings, and the MTP probe's report.
- `src/inodes.rs` — inode table, open files, directory cache and mount plan of the
  Finder mount, and the decisions of its `open`.
- `app/` — the Tauri application around the library: sidecar, commands,
  file system, libmtp and FUSE plumbing.
