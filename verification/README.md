# rustfs

A small block file system with a write-ahead log, verified with Verus.

- `src/` is the verified library: the disk layout and block framing
  (`fs_structs`), bit-level bitmap reasoning (`bits`), the write-ahead log
  with its commit, checkpoint and recovery plans (`journal`), the rule that
  only committed transactions are replayed (`replay`), the block and
  inode allocators with the inode cache (`manager`), and the rules of the
  file operations (`fs_ops`). It performs no I/O: callers hand in the blocks
  they read and perform the block writes the library plans. The journal's
  API enforces the write-ahead order: a commit is closed only with its
  complete plan, and only a committed log is checkpointed and cleared.
- `app/` is the program around it: the disk image file, bincode encoding of
  the on-disk records, and the FUSE front end.
- `tests/` exercises the library on concrete values.
