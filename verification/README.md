# autobahn

The rules of a file synchronizer, stated and proved with Verus.

`src/` is the library. It holds no I/O: what the disk, the clock, a service
manager or a person says comes in as plain values, and what is to be done or
shown goes out as plain values.

- `tree`, `digest`, `order`, `text`, `globs`, `clock`: entries and their content,
  and the vocabulary the rest is stated in.
- `scan`: walking an observed directory, from scratch or from an earlier scan and
  reports of what changed; ignore patterns, names and links that do not travel,
  how a volume treats modes and names. Walking only what was reported agrees
  with walking everything, where every change was reported, no two names are
  recorded as one, and no report lies below a name that is not text or that is
  reserved unless the directory of that name is listed again.
- `rsync`: block signatures, deltas and patches. Patching a base with a delta
  against it rebuilds the target, unless two different blocks of the base and
  the target have one digest.
- `command`: what the commands select, decide, refuse and say.
- `peering`, `protocol`, `root`, `ownership`: who leads, what a session may ask,
  who may run it and whom names stand for.
- `service`: units, property lists and the steps that drive a service manager.
- `progress`, `pager`, `persist`, `power`, `paths`, `plan`, `message`: the rest.

What is not proved stands in a few functions that call other crates or the
standard library; each says what it claims of them.

`tests/` runs the library. `app/` is the program around it: arguments, files,
threads, the terminal and the service manager.
