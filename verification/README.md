# magic_mount

A library that mounts the files of modules over the partitions of an Android device, verified with
Verus, and the code around it that makes the system calls.

A module is a directory with files that are to appear on the device. They are mounted in one of
two ways:

- **Bind mounts.** All files of all modules are collected into one tree, and each is bound over the
  device's file of the same name. A directory that gets files which the device does not have, or
  has as another type of file, is built anew on a memory file system, filled with what was there,
  and moved over the old one.
- **Overlays.** For each partition, the directories that modules have for it are stacked over the
  device's own, the last module on top.

Which of the two is done is decided by flag files.

## Layout

- `src/` is the library. It decides what is to be done and performs no system call. Each operation
  returns a `Turn`: a request for the host together with a machine that goes on with the reply, or
  the end. Its contract states what the operation asks for, and what it returns, as a function of
  the host's replies.
- `src/laws/` states what holds of the library as a whole, as proof functions. Finding out changes
  nothing. The collected tree has no gaps: every file for the system partition has its place in it,
  however deep, and so has every partition that a module has something for, with all the names in
  the module's directory. There is a tree where a module has something to mount that no earlier
  module stands in the way of, and none where no module has anything. A module that does not take
  part makes no difference. Mounting forgets no child, and changes files on the memory file system
  only. A directory that is built anew is complete before it takes the place of the old one, and the
  memory file system is taken away again in the end. Only supported partitions are covered by
  overlays. Overlays that were mounted are found again and taken back, in either mode; where modules
  are bound and no overlay is left, nothing is touched.
- `tests/` plays the host in given scenarios.
- `app/` is the host. It makes the calls with `rustix`, `extattr` and the standard library.

The host lists a directory in one go. Children of a directory, and partitions, are dealt with in
the order in which they were found.

## What is believed without proof

Three functions of the library wrap functions from outside, and their contracts are believed:
`String::from_utf8_lossy` and `std::str::from_utf8` in `src/bytes.rs`, and
`rustix::fs::Mode::from_raw_mode` in `src/script.rs`.
