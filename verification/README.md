# fs_core

A small Unix-style file system whose logic is verified with Verus.

- `src/` is the verified library: the extendible hash table and the LRU-K
  replacer behind a buffer pool over an in-memory block store, the on-disk
  byte layout, inodes with the free-inode stack, grouped free-block lists,
  directories, open files, sessions, formatting and mounting, and the
  shell's decisions (which command a word names, when formatting is
  confirmed and allowed, where accounts may be created).
- `app/` is the interactive shell: it reads the disk image from a file,
  reads commands and prompts, carries out the library's decisions, prints
  results, and writes the blocks the
  library wrote back to the file.
- `tests/` runs the library on concrete disks.

Disk layout (512-byte blocks): block 1 the super block, blocks 2 to 33 the
inodes (32 bytes each), data block `b` at block `34 + b`. Integers are stored
little endian; structures keep their fields in declaration order with the
usual alignment padding.
