# arfw

A verified library for APFS containers, and a Windows program that mounts them
through WinFsp.

The library reads and changes APFS volumes: it mounts the first volume of a
container, resolves paths, reads and writes files, creates, renames and removes
entries, allocates blocks, and commits every change with a new checkpoint
superblock. A structural validator walks an image and checks all of its
checksums. On top of the volume stands the part of the Windows driver that
decides: cached metadata, attributes, status codes, partitions, drive letters,
mounts and the service's states.

## Layout

- `src/apfs` is the file system. Devices are anything with `ReadAt` and
  `WriteAt` (`src/apfs/device.rs`); `MemoryDevice` is one in memory.
- `src/apfs/volume` is a mounted volume. `state.rs`, `read.rs`, `write.rs`,
  `create.rs`, `remove.rs`, `rename.rs`, `update.rs` and `grow.rs` hold the
  operations and say what each of them does to the bytes of the device. The
  other modules prove what follows for a whole volume.
- `src/driver`, `src/disk.rs`, `src/device_monitor.rs`, `src/device_watcher.rs`,
  `src/mount_manager.rs`, `src/daemon.rs` and `src/service.rs` are the decisions
  of the Windows side, on plain values.
- `app` is the program around it: handles, IOCTLs, WinFsp callbacks, the service
  and the command line.
- `tests` run the library on images built in memory.

## What is proved

Each function's contract gives its result in terms of the bytes on the device.
Where a device may fail, the contract is exact for a device that does not. On one
that does, a mount, a lookup, a read or a change that succeeds has still done what
it says, and an image that the validator passes has been read whole. A listing or
a walk has every entry, with size and times 0 where an inode could not be read.

The catalog of a volume is modelled as a tree of records
(`src/apfs/volume/tree.rs`, `model.rs`). On a volume whose metadata blocks do
not overlap (`VolumeView::sound`) these laws hold:

- what is written, appended or grown is read back, and other files stay
  (`data.rs`, `law_append.rs`);
- an entry that was created, moved or removed is found, or not found, under the
  paths that it should be (`law_create.rs`, `law_rename.rs`, `law_remove.rs`);
- entries are created, moved, replaced and removed, and times and sizes are set,
  wherever there is room in the leaves concerned and a place for the next
  superblock (`law_success.rs`, `law_replace.rs`, `law_made.rs`);
- files are appended to and grow wherever there are free blocks as well
  (`law_longer.rs`);
- a directory lists what is found in it, and a walk misses nothing; it gains what
  is created, loses what is removed and follows what is moved, and nothing else
  changes in it (`listing.rs`, `walks.rs`, `law_walk.rs`);
- a change is there after the next mount (`remount.rs`);
- an image that passed the validator passes it after the change
  (`law_image.rs`).

Three limits of the format's handling show in these laws. Allocations are kept in
memory and not written back, so the laws on growing files ask that the bitmaps
agree with what is in use. The checkpoint ring is used round and round, so a
commit that overwrites the only checkpoint map that leads to the space manager
leaves a container that cannot be mounted. Leaves are written in place before the
superblock is, so a commit that is cut short may leave some of them new and some
of them old.

## What is trusted

- `String::from_utf8_lossy` and `String::from_utf16_lossy`: valid text is decoded;
  what becomes of other text is named, not described.
- The system clock: nothing is known of what it says.
- `lru::LruCache`: what it holds after each call that is made.
